//! The fields in the query of a request path.
use crate::percent::{
    form_encoded, lemma_form_encoded_alphabet, lemma_form_field_round_trip,
    lemma_plain_text_decodes_to_itself, percent_decode, percent_decoded,
};
use crate::text::{
    chars_of, is_white_space, lemma_first_index, lemma_first_index_is, lemma_split_is,
    lemma_split_last, split, split_chars, split_chars_once, split_once, text_of, texts,
};
use vstd::hash_map::StringHashMap;
use vstd::prelude::*;

verus! {

/// The texts that a map's values stand for.
pub open spec fn text_map(m: Map<Seq<char>, String>) -> Map<Seq<char>, Seq<char>> {
    m.map_values(|text: String| text@)
}

/// The name and the value in one pair of a query: what stands before its first `=`, and what stands
/// behind it; a pair without one is a name whose value is empty.
pub open spec fn pair_sides(pair: Seq<char>) -> (Seq<char>, Seq<char>) {
    match split_once(pair, '=') {
        Some(sides) => sides,
        None => (pair, Seq::empty()),
    }
}

/// The fields that the pairs of a query hold: empty pairs hold none, names and values are decoded,
/// and the last of several fields of one name counts.
pub open spec fn pairs_map(pairs: Seq<Seq<char>>) -> Map<Seq<char>, Seq<char>>
    decreases pairs.len(),
{
    if pairs.len() == 0 {
        Map::empty()
    } else if pairs.last().len() == 0 {
        pairs_map(pairs.drop_last())
    } else {
        let (name, value) = pair_sides(pairs.last());
        pairs_map(pairs.drop_last()).insert(percent_decoded(name), percent_decoded(value))
    }
}

/// The fields in the query of `path`, which is what stands behind its first `?`.
pub open spec fn query_map(path: Seq<char>) -> Map<Seq<char>, Seq<char>> {
    match split_once(path, '?') {
        Some((_, query)) => pairs_map(split(query, '&')),
        None => Map::empty(),
    }
}

/// The fields in the query of `path`.
pub fn query_params(path: &str) -> (params: StringHashMap<String>)
    ensures
        text_map(params@) == query_map(path@),
{
    let mut params: StringHashMap<String> = StringHashMap::new();
    assert(text_map(params@) == Map::<Seq<char>, Seq<char>>::empty());
    let chars = chars_of(path);
    let query = match split_chars_once(chars.as_slice(), '?') {
        Some((_, query)) => query,
        None => {
            return params;
        },
    };
    let pairs = split_chars(query.as_slice(), '&');
    let ghost all = texts(pairs@);
    for i in 0..pairs.len()
        invariant
            all == texts(pairs@),
            text_map(params@) == pairs_map(all.take(i as int)),
    {
        let pair = &pairs[i];
        let ghost before = params@;
        proof {
            assert(all.take(i + 1).drop_last() == all.take(i as int));
            assert(all.take(i + 1).last() == pair@);
        }
        if pair.len() > 0 {
            let (name, value) = match split_chars_once(pair.as_slice(), '=') {
                Some(sides) => (text_of(sides.0.as_slice()), text_of(sides.1.as_slice())),
                None => (text_of(pair.as_slice()), String::new()),
            };
            let key = percent_decode(name.as_str());
            let text = percent_decode(value.as_str());
            params.insert(key, text);
            assert(text_map(params@) == text_map(before).insert(key@, text@));
        }
    }
    assert(all.take(pairs@.len() as int) == all);
    params
}

// ---------------------------------------------------------------------------------------------
// What a browser writes into a query, and that it is read back.
// ---------------------------------------------------------------------------------------------

/// What a browser writes for one field: the encoded name, `=` and the encoded value.
pub open spec fn form_pair(field: (Seq<char>, Seq<char>)) -> Seq<char> {
    form_encoded(field.0) + seq!['='] + form_encoded(field.1)
}

/// Several texts with `c` between each two.
pub open spec fn joined(parts: Seq<Seq<char>>, c: char) -> Seq<char>
    decreases parts.len(),
{
    if parts.len() == 0 {
        Seq::empty()
    } else if parts.len() == 1 {
        parts[0]
    } else {
        parts[0] + seq![c] + joined(parts.skip(1), c)
    }
}

/// What a browser writes for the fields of a form.
pub open spec fn form_query(fields: Seq<(Seq<char>, Seq<char>)>) -> Seq<char> {
    joined(fields.map_values(|field: (Seq<char>, Seq<char>)| form_pair(field)), '&')
}

/// The fields as a map, in which the last of several fields of one name counts.
pub open spec fn fields_map(fields: Seq<(Seq<char>, Seq<char>)>) -> Map<Seq<char>, Seq<char>>
    decreases fields.len(),
{
    if fields.len() == 0 {
        Map::empty()
    } else {
        fields_map(fields.drop_last()).insert(fields.last().0, fields.last().1)
    }
}

/// Parts that do not hold the separator are found again in what they were joined to.
pub proof fn lemma_split_joined(parts: Seq<Seq<char>>, c: char)
    requires
        parts.len() > 0,
        forall|i: int| 0 <= i < parts.len() ==> !(#[trigger] parts[i]).contains(c),
    ensures
        split(joined(parts, c), c) == parts,
    decreases parts.len(),
{
    let s = joined(parts, c);
    if parts.len() == 1 {
        lemma_first_index(s, c);
        assert(split(s, c) == seq![s]);
        assert(parts == seq![s]);
    } else {
        let first = parts[0];
        let rest = parts.skip(1);
        let k = first.len() as int;
        assert forall|i: int| 0 <= i < rest.len() implies !(#[trigger] rest[i]).contains(c) by {
            assert(rest[i] == parts[i + 1]);
        }
        lemma_split_joined(rest, c);
        assert(s == first + seq![c] + joined(rest, c));
        assert(s[k] == c);
        assert forall|i: int| 0 <= i < k implies s[i] != c by {
            assert(s[i] == first[i]);
            assert(first.contains(first[i]));
        }
        lemma_first_index_is(s, c, k);
        assert(s.take(k) == first);
        assert(s.skip(k + 1) == joined(rest, c));
        assert(seq![first] + rest == parts);
    }
}

proof fn lemma_form_pair(field: (Seq<char>, Seq<char>))
    ensures
        form_pair(field).len() > 0,
        !form_pair(field).contains('&'),
        pair_sides(form_pair(field)) == (form_encoded(field.0), form_encoded(field.1)),
{
    let name = form_encoded(field.0);
    let value = form_encoded(field.1);
    let pair = form_pair(field);
    let k = name.len() as int;
    lemma_form_encoded_alphabet(field.0);
    lemma_form_encoded_alphabet(field.1);
    assert(pair[k] == '=');
    assert forall|i: int| 0 <= i < k implies pair[i] != '=' by {
        assert(pair[i] == name[i]);
        assert(name.contains(name[i]));
    }
    lemma_first_index_is(pair, '=', k);
    assert(pair.take(k) == name);
    assert(pair.skip(k + 1) == value);
    if pair.contains('&') {
        let i = choose|i: int| 0 <= i < pair.len() && pair[i] == '&';
        if i < k {
            assert(name[i] == '&');
        } else {
            assert(value[i - k - 1] == '&');
        }
    }
}

proof fn lemma_form_pairs(fields: Seq<(Seq<char>, Seq<char>)>)
    ensures
        pairs_map(fields.map_values(|field: (Seq<char>, Seq<char>)| form_pair(field)))
            == fields_map(fields),
    decreases fields.len(),
{
    let pairs = fields.map_values(|field: (Seq<char>, Seq<char>)| form_pair(field));
    if fields.len() > 0 {
        lemma_form_pairs(fields.drop_last());
        assert(pairs.drop_last() == fields.drop_last().map_values(
            |field: (Seq<char>, Seq<char>)| form_pair(field),
        ));
        lemma_form_pair(fields.last());
        lemma_form_field_round_trip(fields.last().0);
        lemma_form_field_round_trip(fields.last().1);
    }
}

/// The fields that a browser writes into a query are read back from the request path, whatever
/// names and values they have.
pub proof fn lemma_query_round_trip(page: Seq<char>, fields: Seq<(Seq<char>, Seq<char>)>)
    requires
        !page.contains('?'),
    ensures
        query_map(page + seq!['?'] + form_query(fields)) == fields_map(fields),
{
    let query = form_query(fields);
    let path = page + seq!['?'] + query;
    let k = page.len() as int;
    let pairs = fields.map_values(|field: (Seq<char>, Seq<char>)| form_pair(field));
    assert(path[k] == '?');
    assert forall|i: int| 0 <= i < k implies path[i] != '?' by {
        assert(path[i] == page[i]);
        assert(page.contains(page[i]));
    }
    lemma_first_index_is(path, '?', k);
    assert(path.skip(k + 1) == query);
    if fields.len() == 0 {
        let none = Seq::<Seq<char>>::empty();
        assert(split(query, '&') == seq![query]);
        assert(seq![query].drop_last() == none);
        assert(pairs_map(none) == Map::<Seq<char>, Seq<char>>::empty());
    } else {
        assert forall|i: int| 0 <= i < pairs.len() implies !(#[trigger] pairs[i]).contains('&') by {
            lemma_form_pair(fields[i]);
        }
        lemma_split_joined(pairs, '&');
        lemma_form_pairs(fields);
    }
}

proof fn lemma_joined_all(parts: Seq<Seq<char>>, c: char, good: spec_fn(char) -> bool)
    requires
        good(c),
        forall|i: int, j: int|
            0 <= i < parts.len() && 0 <= j < parts[i].len() ==> good(#[trigger] parts[i][j]),
    ensures
        forall|k: int| 0 <= k < joined(parts, c).len() ==> good(#[trigger] joined(parts, c)[k]),
    decreases parts.len(),
{
    if parts.len() > 1 {
        let rest = parts.skip(1);
        assert forall|i: int, j: int| 0 <= i < rest.len() && 0 <= j < rest[i].len() implies good(
            #[trigger] rest[i][j],
        ) by {
            assert(rest[i][j] == parts[i + 1][j]);
        }
        lemma_joined_all(rest, c, good);
        let s = joined(parts, c);
        let n = parts[0].len() as int;
        assert forall|k: int| 0 <= k < s.len() implies good(#[trigger] s[k]) by {
            if k < n {
                assert(s[k] == parts[0][k]);
            } else if k > n {
                assert(s[k] == joined(rest, c)[k - n - 1]);
            }
        }
    } else if parts.len() == 1 {
        assert forall|k: int| 0 <= k < joined(parts, c).len() implies good(
            #[trigger] joined(parts, c)[k],
        ) by {
            assert(joined(parts, c)[k] == parts[0][k]);
        }
    }
}

/// What a browser writes for the fields of a form holds no white space.
pub proof fn lemma_form_query_is_bare(fields: Seq<(Seq<char>, Seq<char>)>)
    ensures
        forall|k: int|
            0 <= k < form_query(fields).len() ==> !is_white_space(#[trigger] form_query(fields)[k]),
{
    let pairs = fields.map_values(|field: (Seq<char>, Seq<char>)| form_pair(field));
    let good = |c: char| !is_white_space(c);
    assert forall|i: int, j: int| 0 <= i < pairs.len() && 0 <= j < pairs[i].len() implies good(
        #[trigger] pairs[i][j],
    ) by {
        let name = form_encoded(fields[i].0);
        let value = form_encoded(fields[i].1);
        lemma_form_encoded_alphabet(fields[i].0);
        lemma_form_encoded_alphabet(fields[i].1);
        if j < name.len() {
            assert(pairs[i][j] == name[j]);
        } else if j > name.len() {
            assert(pairs[i][j] == value[j - name.len() - 1]);
        }
    }
    lemma_joined_all(pairs, '&', good);
    assert forall|k: int| 0 <= k < form_query(fields).len() implies !is_white_space(
        #[trigger] form_query(fields)[k],
    ) by {
        assert(good(joined(pairs, '&')[k]));
    }
}

// ---------------------------------------------------------------------------------------------
// What each pair of a query adds.
// ---------------------------------------------------------------------------------------------

/// What stands before a pair's first `=` is its name and what stands behind its value; a pair without
/// one is a name.
pub proof fn lemma_pair_sides_are(name: Seq<char>, value: Seq<char>)
    requires
        !name.contains('='),
    ensures
        pair_sides(name + seq!['='] + value) == (name, value),
        pair_sides(name) == (name, Seq::<char>::empty()),
{
    let pair = name + seq!['='] + value;
    let k = name.len() as int;
    lemma_first_index(name, '=');
    assert forall|i: int| 0 <= i < k implies pair[i] != '=' by {
        assert(pair[i] == name[i]);
        assert(name.contains(name[i]));
    }
    assert(pair[k] == '=');
    lemma_first_index_is(pair, '=', k);
    assert(pair.take(k) == name);
    assert(pair.skip(k + 1) == value);
}

proof fn lemma_query_is(page: Seq<char>, query: Seq<char>)
    requires
        !page.contains('?'),
    ensures
        query_map(page + seq!['?'] + query) == pairs_map(split(query, '&')),
{
    let path = page + seq!['?'] + query;
    let k = page.len() as int;
    assert(path[k] == '?');
    assert forall|i: int| 0 <= i < k implies path[i] != '?' by {
        assert(path[i] == page[i]);
        assert(page.contains(page[i]));
    }
    lemma_first_index_is(path, '?', k);
    assert(path.skip(k + 1) == query);
}

/// A path without `?`, or with nothing behind it, has no fields.
pub proof fn lemma_no_query_no_fields(page: Seq<char>)
    requires
        !page.contains('?'),
    ensures
        query_map(page) == Map::<Seq<char>, Seq<char>>::empty(),
        query_map(page + seq!['?']) == Map::<Seq<char>, Seq<char>>::empty(),
{
    lemma_first_index(page, '?');
    let none = Seq::<char>::empty();
    lemma_query_is(page, none);
    assert(page + seq!['?'] + none == page + seq!['?']);
    lemma_split_is(none, '&', none);
    assert(seq![none].drop_last() == Seq::<Seq<char>>::empty());
    assert(pairs_map(Seq::<Seq<char>>::empty()) == Map::<Seq<char>, Seq<char>>::empty());
}

proof fn lemma_query_pair(page: Seq<char>, query: Seq<char>, pair: Seq<char>)
    requires
        !page.contains('?'),
        !pair.contains('&'),
        pair.len() > 0,
    ensures
        ({
            let name = percent_decoded(pair_sides(pair).0);
            let value = percent_decoded(pair_sides(pair).1);
            &&& query_map(page + seq!['?'] + pair) == Map::<Seq<char>, Seq<char>>::empty().insert(
                name,
                value,
            )
            &&& query_map(page + seq!['?'] + (query + seq!['&'] + pair)) == query_map(
                page + seq!['?'] + query,
            ).insert(name, value)
        }),
{
    lemma_query_is(page, pair);
    lemma_query_is(page, query);
    lemma_query_is(page, query + seq!['&'] + pair);
    lemma_split_is(pair, '&', pair);
    assert(seq![pair].drop_last() == Seq::<Seq<char>>::empty());
    assert(pairs_map(Seq::<Seq<char>>::empty()) == Map::<Seq<char>, Seq<char>>::empty());
    lemma_split_last(query, '&', pair);
    assert(split(query, '&').push(pair).drop_last() == split(query, '&'));
}

/// A pair of name and value gives the decoded name the decoded value, whatever the query held
/// before, and leaves every other field as it was.
pub proof fn lemma_query_field_is(
    page: Seq<char>,
    query: Seq<char>,
    name: Seq<char>,
    value: Seq<char>,
)
    requires
        !page.contains('?'),
        !name.contains('='),
        !name.contains('&'),
        !value.contains('&'),
    ensures
        ({
            let pair = name + seq!['='] + value;
            let before = query_map(page + seq!['?'] + query);
            &&& query_map(page + seq!['?'] + pair) == Map::<Seq<char>, Seq<char>>::empty().insert(
                percent_decoded(name),
                percent_decoded(value),
            )
            &&& query_map(page + seq!['?'] + (query + seq!['&'] + pair)) == before.insert(
                percent_decoded(name),
                percent_decoded(value),
            )
        }),
{
    let pair = name + seq!['='] + value;
    let k = name.len() as int;
    lemma_pair_sides_are(name, value);
    assert forall|i: int| 0 <= i < pair.len() implies pair[i] != '&' by {
        if i < k {
            assert(name.contains(name[i]));
        } else if i > k {
            assert(pair[i] == value[i - k - 1]);
            assert(value.contains(value[i - k - 1]));
        }
    }
    lemma_query_pair(page, query, pair);
}

/// A pair that is a name alone gives it an empty value, and an empty pair gives nothing.
pub proof fn lemma_query_name_is(page: Seq<char>, query: Seq<char>, name: Seq<char>)
    requires
        !page.contains('?'),
        !name.contains('='),
        !name.contains('&'),
    ensures
        ({
            let before = query_map(page + seq!['?'] + query);
            let with_name = page + seq!['?'] + (query + seq!['&'] + name);
            &&& name.len() > 0 ==> query_map(with_name) == before.insert(
                percent_decoded(name),
                Seq::empty(),
            )
            &&& name.len() > 0 ==> query_map(page + seq!['?'] + name) == Map::<
                Seq<char>,
                Seq<char>,
            >::empty().insert(percent_decoded(name), Seq::empty())
            &&& name.len() == 0 ==> query_map(with_name) == before
        }),
{
    lemma_pair_sides_are(name, Seq::empty());
    lemma_plain_text_decodes_to_itself(Seq::empty());
    if name.len() > 0 {
        lemma_query_pair(page, query, name);
    } else {
        lemma_query_is(page, query);
        lemma_query_is(page, query + seq!['&'] + name);
        lemma_split_last(query, '&', name);
        assert(split(query, '&').push(name).drop_last() == split(query, '&'));
    }
}

/// A map of strings stands for their texts, under the same names.
pub proof fn lemma_text_map_is(m: Map<Seq<char>, String>)
    ensures
        text_map(m).dom() == m.dom(),
        forall|name: Seq<char>| #[trigger]
            m.contains_key(name) ==> text_map(m)[name] == m[name]@,
{
}

} // verus!
