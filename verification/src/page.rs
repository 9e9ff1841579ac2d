//! The page from which a phone uploads a recording.
use vstd::prelude::*;

verus! {

/// The page up to the token.
pub const PAGE_START: &'static str = r#"<!doctype html>
<html>
<head>
  <meta charset="utf-8" />
  <meta name="viewport" content="width=device-width, initial-scale=1" />
  <title>Meetily Phone Upload</title>
  <style>
    body { font-family: -apple-system, BlinkMacSystemFont, sans-serif; margin: 24px; line-height: 1.4; }
    label { display: block; margin: 16px 0 6px; font-weight: 600; }
    input, button { box-sizing: border-box; width: 100%; font: inherit; padding: 12px; }
    button { margin-top: 16px; }
    #status { margin-top: 16px; }
  </style>
</head>
<body>
  <h1>Meetily Upload</h1>
  <label for="title">Meeting title</label>
  <input id="title" placeholder="Voice memo" />
  <label for="file">Audio file</label>
  <input id="file" type="file" accept="audio/*,.m4a,.mp3,.wav,.aac,.flac,.ogg,.webm" />
  <button id="upload">Upload to Meetily</button>
  <div id="status"></div>
  <script>
    const token = ""#;

/// The page behind the token.
pub const PAGE_END: &'static str = r#"";
    const statusEl = document.getElementById("status");
    document.getElementById("upload").addEventListener("click", async () => {
      const file = document.getElementById("file").files[0];
      if (!file) {
        statusEl.textContent = "Choose an audio file first.";
        return;
      }
      const title = document.getElementById("title").value || file.name;
      statusEl.textContent = "Uploading...";
      const params = new URLSearchParams({ token, filename: file.name, title });
      const response = await fetch(`/upload?${params.toString()}`, {
        method: "POST",
        headers: { "Content-Type": "application/octet-stream" },
        body: file,
      });
      if (!response.ok) {
        statusEl.textContent = `Upload failed: ${response.status}`;
        return;
      }
      statusEl.textContent = "Uploaded. You can return to Meetily.";
    });
  </script>
</body>
</html>"#;

/// The page whose uploads bear `token`.
pub open spec fn page(token: Seq<char>) -> Seq<char> {
    PAGE_START@ + token + PAGE_END@
}

/// The page whose uploads bear `token`.
pub fn upload_page(token: &str) -> (html: String)
    ensures
        html@ == page(token@),
{
    let mut html = PAGE_START.to_owned();
    html.append(token);
    html.append(PAGE_END);
    html
}

// ---------------------------------------------------------------------------------------------
// Laws.
// ---------------------------------------------------------------------------------------------

/// The page bears the whole token: it stands between the two parts of the page that are always the
/// same, and nothing else does.
pub proof fn lemma_page_bears_token(token: Seq<char>)
    ensures
        ({
            let html = page(token);
            let from = PAGE_START@.len() as int;
            let to = html.len() - PAGE_END@.len();
            &&& to - from == token.len()
            &&& html.take(from) == PAGE_START@
            &&& html.subrange(from, to) == token
            &&& html.skip(to) == PAGE_END@
        }),
{
    let html = page(token);
    let from = PAGE_START@.len() as int;
    let to = html.len() - PAGE_END@.len();
    assert(html.take(from) == PAGE_START@);
    assert(html.subrange(from, to) == token);
    assert(html.skip(to) == PAGE_END@);
}

/// Different tokens have different pages.
pub proof fn lemma_page_tells_token(token1: Seq<char>, token2: Seq<char>)
    ensures
        page(token1) == page(token2) <==> token1 == token2,
{
    lemma_page_bears_token(token1);
    lemma_page_bears_token(token2);
}

} // verus!
