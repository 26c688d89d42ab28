//! Directory-entry names: the terminal component of a percent-decoded remote path.
use vstd::prelude::*;
use vstd::utf8::{decode_utf8, valid_utf8};
use vstd::string::StringSliceAdditionalSpecFns;
use crate::text::{chars_of, string_of};

verus! {

/// The value of an ASCII hexadecimal digit, if `b` is one.
pub open spec fn hex_value(b: u8) -> Option<u8> {
    if 0x30 <= b && b <= 0x39 {
        Some((b - 0x30) as u8)
    } else if 0x41 <= b && b <= 0x46 {
        Some((b - 0x41 + 10) as u8)
    } else if 0x61 <= b && b <= 0x66 {
        Some((b - 0x61 + 10) as u8)
    } else {
        None
    }
}

/// Percent-decoding of a byte string: `%` followed by two hexadecimal digits
/// stands for the byte they spell; every other byte, a lone `%` included,
/// stands for itself.
pub open spec fn percent_decoded(b: Seq<u8>) -> Seq<u8>
    decreases b.len(),
{
    if b.len() == 0 {
        Seq::empty()
    } else if b[0] == 0x25 && b.len() >= 3 && hex_value(b[1]) is Some && hex_value(b[2]) is Some {
        seq![(hex_value(b[1])->0 * 16 + hex_value(b[2])->0) as u8] + percent_decoded(b.subrange(3, b.len() as int))
    } else {
        seq![b[0]] + percent_decoded(b.subrange(1, b.len() as int))
    }
}

/// The path text that `path` percent-decodes to, if the decoded bytes are UTF-8.
pub open spec fn decoded_path(path: Seq<char>) -> Option<Seq<char>> {
    let bytes = percent_decoded(vstd::utf8::encode_utf8(path));
    if valid_utf8(bytes) {
        Some(decode_utf8(bytes))
    } else {
        None
    }
}

/// Relies on `percent_encoding::percent_decode_str` followed by `decode_utf8`:
/// percent-decodes the bytes of `path` and accepts the result only if it is UTF-8.
#[verifier::external_body]
fn decode_percent(path: &str) -> (r: Option<String>)
    ensures
        r is Some <==> valid_utf8(percent_decoded(path.spec_bytes())),
        r is Some ==> r->0@ == decode_utf8(percent_decoded(path.spec_bytes())),
{
    match percent_encoding::percent_decode_str(path).decode_utf8() {
        Ok(s) => Some(s.into_owned()),
        Err(_) => None,
    }
}

/// Start of the last component of `s[..end]`: one past its last `/`, or 0.
pub open spec fn component_start(s: Seq<char>, end: int) -> int
    decreases end,
{
    if end <= 0 {
        0
    } else if s[end - 1] == '/' {
        end
    } else {
        component_start(s, end - 1)
    }
}

/// The last component of `s[..end]` that is neither empty nor `.`; none where
/// there is no such component or where it is `..`.
pub open spec fn file_name_upto(s: Seq<char>, end: int) -> Option<Seq<char>>
    decreases end,
{
    let start = component_start(s, end);
    if end <= 0 || end > s.len() || start < 0 || start > end {
        None
    } else {
        let comp = s.subrange(start, end);
        if comp == seq!['.', '.'] {
            None
        } else if comp.len() == 0 || comp == seq!['.'] {
            if start == 0 {
                None
            } else {
                file_name_upto(s, start - 1)
            }
        } else {
            Some(comp)
        }
    }
}

/// The file name of a path: its last normal component.
pub open spec fn file_name(s: Seq<char>) -> Option<Seq<char>> {
    file_name_upto(s, s.len() as int)
}

/// The directory-entry name of a track with remote path `path`.
pub open spec fn basename_of(path: Seq<char>) -> Option<Seq<char>> {
    match decoded_path(path) {
        Some(p) => file_name(p),
        None => None,
    }
}

proof fn lemma_component_start_bounds(s: Seq<char>, end: int)
    requires
        0 <= end <= s.len(),
    ensures
        0 <= component_start(s, end) <= end,
        component_start(s, end) > 0 ==> s[component_start(s, end) - 1] == '/',
        forall|k: int| component_start(s, end) <= k < end ==> s[k] != '/',
    decreases end,
{
    if end > 0 && s[end - 1] != '/' {
        lemma_component_start_bounds(s, end - 1);
    }
}

/// The file name of a path: its last component, skipping empty and `.`
/// components; none where the path ends in `..` or has no such component.
pub fn file_name_of(s: &Vec<char>) -> (r: Option<Vec<char>>)
    ensures
        match r {
            Some(v) => file_name(s@) == Some(v@),
            None => file_name(s@) is None,
        },
{
    let mut end: usize = s.len();
    loop
        invariant
            end <= s.len(),
            file_name(s@) == file_name_upto(s@, end as int),
        decreases end,
    {
        if end == 0 {
            return None;
        }
        let mut start: usize = end;
        while start > 0 && s[start - 1] != '/'
            invariant
                start <= end <= s.len(),
                component_start(s@, end as int) == component_start(s@, start as int),
            decreases start,
        {
            start = start - 1;
        }
        proof {
            lemma_component_start_bounds(s@, end as int);
        }
        let len: usize = end - start;
        let ghost comp = s@.subrange(start as int, end as int);
        if len == 2 && s[start] == '.' && s[start + 1] == '.' {
            assert(comp =~= seq!['.', '.']);
            return None;
        }
        if len == 0 || (len == 1 && s[start] == '.') {
            if len == 1 {
                assert(comp =~= seq!['.']);
            } else {
                assert(comp =~= Seq::<char>::empty());
            }
            if start == 0 {
                return None;
            }
            end = start - 1;
        } else {
            assert(comp != seq!['.', '.']) by {
                if len == 2 {
                    assert(comp[0] != '.' || comp[1] != '.');
                } else {
                    assert(comp.len() != 2);
                }
            }
            assert(comp != seq!['.']) by {
                if len == 1 {
                    assert(comp[0] != '.');
                } else {
                    assert(comp.len() != 1);
                }
            }
            let mut out: Vec<char> = Vec::new();
            let mut k: usize = start;
            while k < end
                invariant
                    start <= k <= end <= s.len(),
                    out@ == s@.subrange(start as int, k as int),
                decreases end - k,
            {
                out.push(s[k]);
                k = k + 1;
                assert(out@ =~= s@.subrange(start as int, k as int));
            }
            return Some(out);
        }
    }
}

/// The directory-entry name of a track with remote path `path`: the file name
/// of the percent-decoded path; none where decoding does not give UTF-8 text
/// or the path has no file name.
pub fn get_basename(path: &str) -> (r: Option<String>)
    ensures
        match r {
            Some(n) => basename_of(path@) == Some(n@),
            None => basename_of(path@) is None,
        },
{
    let decoded = decode_percent(path);
    match decoded {
        Some(text) => {
            let chars = chars_of(text.as_str());
            match file_name_of(&chars) {
                Some(name) => Some(string_of(&name)),
                None => None,
            }
        },
        None => None,
    }
}

} // verus!
