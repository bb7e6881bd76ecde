//! Small helpers for applications that display maps.
use vstd::prelude::*;

verus! {

/// The release that builds link to; development builds point at the current development
/// version.
pub fn version() -> (r: &'static str)
    ensures
        r@ == "dev"@,
{
    "dev"
}

/// The name of the country with the given two-letter code; an unknown code names itself.
pub open spec fn country_name(code: Seq<char>) -> Seq<char> {
    if code == "at"@ {
        "Austria"@
    } else if code == "br"@ {
        "Brazil"@
    } else if code == "ca"@ {
        "Canada"@
    } else if code == "ch"@ {
        "Switzerland"@
    } else if code == "cz"@ {
        "Czech Republic"@
    } else if code == "de"@ {
        "Germany"@
    } else if code == "fr"@ {
        "France"@
    } else if code == "gb"@ {
        "Great Britain"@
    } else if code == "il"@ {
        "Israel"@
    } else if code == "ir"@ {
        "Iran"@
    } else if code == "jp"@ {
        "Japan"@
    } else if code == "ly"@ {
        "Libya"@
    } else if code == "nz"@ {
        "New Zealand"@
    } else if code == "pl"@ {
        "Poland"@
    } else if code == "sg"@ {
        "Singapore"@
    } else if code == "tw"@ {
        "Taiwan"@
    } else if code == "us"@ {
        "United States of America"@
    } else {
        code
    }
}

/// The name of the country with the given two-letter code, or the code itself when unknown.
pub fn nice_country_name(code: &str) -> (r: &str)
    ensures
        r@ == country_name(code@),
{
    if same_str(code, "at") {
        "Austria"
    } else if same_str(code, "br") {
        "Brazil"
    } else if same_str(code, "ca") {
        "Canada"
    } else if same_str(code, "ch") {
        "Switzerland"
    } else if same_str(code, "cz") {
        "Czech Republic"
    } else if same_str(code, "de") {
        "Germany"
    } else if same_str(code, "fr") {
        "France"
    } else if same_str(code, "gb") {
        "Great Britain"
    } else if same_str(code, "il") {
        "Israel"
    } else if same_str(code, "ir") {
        "Iran"
    } else if same_str(code, "jp") {
        "Japan"
    } else if same_str(code, "ly") {
        "Libya"
    } else if same_str(code, "nz") {
        "New Zealand"
    } else if same_str(code, "pl") {
        "Poland"
    } else if same_str(code, "sg") {
        "Singapore"
    } else if same_str(code, "tw") {
        "Taiwan"
    } else if same_str(code, "us") {
        "United States of America"
    } else {
        code
    }
}

/// The two strings hold the same characters.
pub fn same_str(a: &str, b: &str) -> (r: bool)
    ensures
        r == (a@ == b@),
{
    let x = a.as_bytes();
    let y = b.as_bytes();
    proof {
        vstd::utf8::encode_utf8_decode_utf8(a@);
        vstd::utf8::encode_utf8_decode_utf8(b@);
    }
    if x.len() != y.len() {
        proof {
            assert(x@ != y@);
        }
        return false;
    }
    let mut i: usize = 0;
    while i < x.len()
        invariant
            i <= x@.len(),
            x@.len() == y@.len(),
            x@ == vstd::utf8::encode_utf8(a@),
            y@ == vstd::utf8::encode_utf8(b@),
            forall|j: int| 0 <= j < i ==> x@[j] == y@[j],
        decreases x@.len() - i,
    {
        if x[i] != y[i] {
            proof {
                assert(x@[i as int] != y@[i as int]);
            }
            return false;
        }
        i = i + 1;
    }
    proof {
        assert(x@ =~= y@);
    }
    true
}

} // verus!
