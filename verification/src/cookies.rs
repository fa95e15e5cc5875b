//! Response cookies: a descriptor that serializes to one `Set-Cookie`
//! header value.

use vstd::prelude::*;

verus! {

use vstd::string::StringExecFns;
use crate::strutil::str_to_string;
use crate::sys::expiry_string_days_from_now;

/// The `Set-Cookie` text of the session cookie: the fixed name, the root
/// path, both protective flags, with only the identifier and the expiry
/// varying.
pub open spec fn session_cookie_text(id: Seq<char>, expires: Seq<char>) -> Seq<char> {
    "session_id"@ + "="@ + id + "; Path="@ + "/"@ + "; Expires="@ + expires + ";"@ + " HttpOnly;"@
        + " Secure;"@
}

/// A cookie to be set on the client. The defaults are a root path, an
/// expiry one day ahead, and both protective flags on.
#[derive(Debug)]
pub struct Cookie {
    pub name: String,
    pub value: String,
    pub path: String,
    pub expires: String,
    pub http_only: bool,
    pub secure: bool,
}

impl Cookie {
    /// The `Set-Cookie` text: `name=value; Path=...; Expires=...;` with
    /// ` HttpOnly;` and ` Secure;` appended for the flags that are set.
    pub open spec fn spec_serialize(self) -> Seq<char> {
        self.name@ + "="@ + self.value@ + "; Path="@ + self.path@ + "; Expires="@ + self.expires@
            + ";"@ + (if self.http_only {
            " HttpOnly;"@
        } else {
            Seq::<char>::empty()
        }) + (if self.secure {
            " Secure;"@
        } else {
            Seq::<char>::empty()
        })
    }

    /// A cookie with the default path, expiry and flags.
    pub fn new(name: String, value: String) -> (r: Cookie)
        ensures
            r.name == name,
            r.value == value,
            r.path@ == "/"@,
            r.http_only,
            r.secure,
    {
        Cookie {
            name,
            value,
            path: str_to_string("/"),
            expires: expiry_string_days_from_now(1),
            http_only: true,
            secure: true,
        }
    }

    /// Writes the cookie as one `Set-Cookie` value.
    pub fn serialize(&self) -> (r: String)
        ensures
            r@ == self.spec_serialize(),
    {
        let mut out = String::new();
        out.append(self.name.as_str());
        out.append("=");
        out.append(self.value.as_str());
        out.append("; Path=");
        out.append(self.path.as_str());
        out.append("; Expires=");
        out.append(self.expires.as_str());
        out.append(";");
        if self.http_only {
            out.append(" HttpOnly;");
        }
        if self.secure {
            out.append(" Secure;");
        }
        proof {
            assert(out@ =~= self.spec_serialize());
        }
        out
    }
}

} // verus!
