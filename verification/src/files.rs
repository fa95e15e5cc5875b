//! Static file serving: the name and content-type decisions, and the
//! response built from whatever the filesystem returned. The filesystem
//! calls themselves live with the caller.

use vstd::prelude::*;

verus! {

use vstd::string::StrSliceExecFns;
use vstd::string::StringSliceAdditionalSpecFns;
use crate::response::{Response, ResponseView, StatusCode};
use crate::strutil::{chars_eq_str, chars_of, dec_chars, lower_chars, split_at_char,
    string_from_chars, trim_spec};

/// Index of the last `.` in a name, if any.
pub open spec fn last_dot(name: Seq<char>) -> Option<int>
    decreases name.len(),
{
    if name.len() == 0 {
        None
    } else if name.last() == '.' {
        Some(name.len() - 1)
    } else {
        last_dot(name.drop_last())
    }
}

/// The content type served for a file name, decided by its extension: a
/// handful of known types, a generic fallback for an unknown extension,
/// and nothing for a name without one.
pub open spec fn spec_mime_type(name: Seq<char>) -> Seq<char> {
    match last_dot(name) {
        None => ""@,
        Some(i) => {
            let ext = name.skip(i + 1);
            if ext == "html"@ {
                "text/html"@
            } else if ext == "css"@ {
                "text/css"@
            } else if ext == "js"@ {
                "application/javascript"@
            } else if ext == "png"@ {
                "image/png"@
            } else if ext == "txt"@ {
                "text/plain"@
            } else {
                "application/octet-stream"@
            }
        },
    }
}

proof fn lemma_last_dot(name: Seq<char>)
    ensures
        last_dot(name) is None ==> forall|j: int| 0 <= j < name.len() ==> #[trigger] name[j]
            != '.',
        last_dot(name) is Some ==> 0 <= last_dot(name)->Some_0 < name.len() && name[last_dot(
            name,
        )->Some_0] == '.',
        forall|j: int|
            last_dot(name) is Some && last_dot(name)->Some_0 < j < name.len() ==> #[trigger] name[j]
                != '.',
    decreases name.len(),
{
    if name.len() > 0 && name.last() != '.' {
        lemma_last_dot(name.drop_last());
        assert(forall|j: int|
            0 <= j < name.len() - 1 ==> #[trigger] name[j] == name.drop_last()[j]);
    }
}

/// The content type for a file name.
pub fn get_mime_type(file_name: &str) -> (r: &'static str)
    ensures
        r@ == spec_mime_type(file_name@),
{
    let cs = chars_of(file_name);
    let n = cs.len();
    let mut dot: usize = n;
    let mut i: usize = n;
    while i > 0 && dot == n
        invariant
            n == cs@.len(),
            i <= n,
            dot <= n,
            dot == n ==> forall|j: int| i <= j < n ==> cs@[j] != '.',
            dot < n ==> cs@[dot as int] == '.' && i == dot && forall|j: int|
                dot < j < n ==> cs@[j] != '.',
        decreases i,
    {
        i -= 1;
        if cs[i] == '.' {
            dot = i;
        }
    }
    proof {
        lemma_last_dot(cs@);
        match last_dot(cs@) {
            None => {
                if dot < n {
                    assert(cs@[dot as int] != '.');
                    assert(false);
                }
            },
            Some(d) => {
                assert(cs@[d] == '.');
                if dot == n {
                    assert(cs@[d] != '.');
                    assert(false);
                }
                if d < (dot as int) {
                    assert(cs@[dot as int] != '.');
                    assert(false);
                }
                if (dot as int) < d {
                    assert(cs@[d] != '.');
                    assert(false);
                }
                assert((dot as int) == d);
            },
        }
    }
    if dot == n {
        return "";
    }
    let mut ext: Vec<char> = Vec::new();
    let mut k: usize = dot + 1;
    while k < n
        invariant
            dot + 1 <= k <= n,
            n == cs@.len(),
            ext@ == cs@.subrange(dot + 1, k as int),
        decreases n - k,
    {
        ext.push(cs[k]);
        k += 1;
        proof {
            assert(ext@ =~= cs@.subrange(dot + 1, k as int));
        }
    }
    proof {
        assert(ext@ =~= cs@.skip(dot + 1));
    }
    if chars_eq_str(&ext, "html") {
        "text/html"
    } else if chars_eq_str(&ext, "css") {
        "text/css"
    } else if chars_eq_str(&ext, "js") {
        "application/javascript"
    } else if chars_eq_str(&ext, "png") {
        "image/png"
    } else if chars_eq_str(&ext, "txt") {
        "text/plain"
    } else {
        "application/octet-stream"
    }
}

/// The file named by a request path: its last `/`-separated segment.
pub open spec fn spec_file_name(path: Seq<char>) -> Seq<char> {
    split_at_char(path, '/').last()
}

/// Extracts the file name from a request path.
pub fn file_name_of_path(path: &str) -> (r: String)
    ensures
        r@ == spec_file_name(path@),
{
    let cs = chars_of(path);
    let pieces = crate::strutil::split_char(&cs, '/');
    proof {
        assert(crate::strutil::views_of(pieces@)[pieces@.len() - 1] == pieces@[pieces@.len()
            - 1]@);
    }
    let last = &pieces[pieces.len() - 1];
    string_from_chars(last)
}

/// What the filesystem gave back for the requested name: the bytes of a
/// file, the entries of a directory, nothing under that name, or some
/// other failure.
pub enum FileOutcome {
    FileBytes(Vec<u8>),
    Listing(Vec<String>),
    NotFound,
    OtherError,
}

/// The JSON array that serde_json writes for a list of strings: a function
/// of the list alone.
pub uninterp spec fn json_string_list_bytes(items: Seq<Seq<char>>) -> Seq<u8>;

/// The texts of a vector of strings.
pub open spec fn string_views(items: Seq<String>) -> Seq<Seq<char>> {
    Seq::new(items.len(), |i: int| items[i]@)
}

/// Relies on `serde_json::to_vec` applied to an array of the given
/// strings: serializing strings cannot fail, and the output depends only
/// on the list.
#[verifier::external_body]
fn json_string_list_vec(items: &Vec<String>) -> (r: Vec<u8>)
    ensures
        r@ == json_string_list_bytes(string_views(items@)),
{
    let array: Vec<serde_json::Value> = items
        .iter()
        .map(|s| serde_json::Value::String(s.clone()))
        .collect();
    serde_json::to_vec(&serde_json::Value::Array(array)).unwrap_or_default()
}

/// The response served for each filesystem outcome, building on `base`.
pub open spec fn file_view(base: ResponseView, name: Seq<char>, outcome: FileOutcome) -> ResponseView {
    match outcome {
        FileOutcome::FileBytes(bytes) => ResponseView {
            status: StatusCode::OK,
            headers: base.headers.insert("content-type"@, "text/plain; charset=utf-8"@).insert(
                "content-type"@,
                spec_mime_type(name),
            ).insert("content-length"@, dec_chars(bytes@.len() as nat)),
            body: bytes@,
        },
        FileOutcome::Listing(items) => ResponseView {
            status: StatusCode::OK,
            headers: base.headers.insert("content-type"@, "application/json"@),
            body: json_string_list_bytes(string_views(items@)),
        },
        FileOutcome::NotFound => ResponseView {
            status: StatusCode::NotFound,
            headers: base.headers.insert("content-type"@, "text/plain; charset=utf-8"@),
            body: "404 Not Found".spec_bytes(),
        },
        FileOutcome::OtherError => ResponseView {
            status: StatusCode::InternalError,
            headers: base.headers.insert("content-type"@, "text/plain; charset=utf-8"@),
            body: "500 Internal Error".spec_bytes(),
        },
    }
}

/// Builds the response for a static-file request once the filesystem has
/// answered: file bytes are served under their extension's content type
/// and their exact length, a directory is served as a JSON listing of its
/// entries, a missing name is a 404, and anything else is a 500.
pub fn file_response(res: Response, file_name: &str, outcome: FileOutcome) -> (r: Response)
    requires
        res.wf(),
    ensures
        r.wf(),
        r@ == file_view(res@, file_name@, outcome),
{
    match outcome {
        FileOutcome::FileBytes(bytes) => {
            let mime = get_mime_type(file_name);
            let len_text = crate::strutil::u64_to_dec_string(bytes.len() as u64);
            let mut r = res.status(StatusCode::OK).text("").header("Content-Type", mime).header(
                "Content-Length",
                len_text.as_str(),
            );
            proof {
                reveal_strlit("Content-Type");
                reveal_strlit("content-type");
                reveal_strlit("Content-Length");
                reveal_strlit("content-length");
                assert(!"Content-Type"@.contains(':') && !"Content-Type"@.contains('\r')
                    && !"Content-Type"@.contains('\n'));
                assert(!"Content-Length"@.contains(':') && !"Content-Length"@.contains('\r')
                    && !"Content-Length"@.contains('\n'));
                assert(trim_spec("Content-Type"@) == "Content-Type"@);
                assert(trim_spec("Content-Length"@) == "Content-Length"@);
                assert(lower_chars(trim_spec("Content-Type"@)) =~= "content-type"@);
                assert(lower_chars(trim_spec("Content-Length"@)) =~= "content-length"@);
            }
            r.body = bytes;
            r
        },
        FileOutcome::Listing(items) => {
            let bytes = json_string_list_vec(&items);
            res.status(StatusCode::OK).json_result(Some(bytes))
        },
        FileOutcome::NotFound => res.status(StatusCode::NotFound).text("404 Not Found"),
        FileOutcome::OtherError => res.status(StatusCode::InternalError).text(
            "500 Internal Error",
        ),
    }
}

} // verus!
