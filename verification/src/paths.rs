//! Construction of the store's connection string.
//!
//! The application keeps one file-backed database under its data directory;
//! the connection string names the scheme and the file.  This module joins
//! the directory and the file name taken from a `scheme:file` template into
//! a fully qualified `sqlite:` connection string.

use vstd::prelude::*;
use vstd::string::StrSliceExecFns;
use vstd::string::StringExecFns;

verus! {

/// Index of the first occurrence of `c` in `s`, or `-1` if there is none.
pub open spec fn spec_find_char(s: Seq<char>, c: char) -> int
    decreases s.len(),
{
    if s.len() == 0 {
        -1
    } else if s[0] == c {
        0
    } else {
        let r = spec_find_char(s.drop_first(), c);
        if r == -1 {
            -1
        } else {
            r + 1
        }
    }
}

/// A first occurrence at `k` pins `spec_find_char` to `k`.
proof fn lemma_find_char_at(s: Seq<char>, c: char, k: int)
    requires
        0 <= k < s.len(),
        s[k] == c,
        forall|j: int| 0 <= j < k ==> s[j] != c,
    ensures
        spec_find_char(s, c) == k,
    decreases s.len(),
{
    if k > 0 {
        assert forall|j: int| 0 <= j < k - 1 implies s.drop_first()[j] != c by {
            assert(s.drop_first()[j] == s[j + 1]);
        }
        assert(s.drop_first()[k - 1] == s[k]);
        lemma_find_char_at(s.drop_first(), c, k - 1);
    }
}

/// Joins the application data directory and the file component of a
/// `scheme:file` connection template into a `sqlite:` connection string:
/// the result is `sqlite:`, then the directory, a path separator, and the
/// part of the template after its first `:`.
pub fn path_mapper(app_path: String, connection_string: &str) -> (r: String)
    requires
        exists|i: int| 0 <= i < connection_string@.len() && connection_string@[i] == ':',
    ensures
        r@ == "sqlite:"@ + app_path@ + seq!['/'] + connection_string@.skip(
            spec_find_char(connection_string@, ':') + 1,
        ),
{
    let n = connection_string.unicode_len();
    let mut k: usize = 0;
    while k < n
        invariant
            k <= n,
            n == connection_string@.len(),
            forall|j: int| 0 <= j < k ==> connection_string@[j] != ':',
        decreases n - k,
    {
        if connection_string.get_char(k) == ':' {
            proof {
                lemma_find_char_at(connection_string@, ':', k as int);
            }
            let tail = connection_string.substring_char(k + 1, n);
            let mut out = String::from_str("sqlite:");
            out.append(app_path.as_str());
            out.append("/");
            out.append(tail);
            proof {
                reveal_strlit("/");
                assert(connection_string@.skip(k as int + 1) =~= connection_string@.subrange(
                    k as int + 1,
                    n as int,
                ));
                assert(out@ =~= "sqlite:"@ + app_path@ + seq!['/'] + connection_string@.skip(
                    k as int + 1,
                ));
            }
            return out;
        }
        k = k + 1;
    }
    proof {
        let i = choose|i: int|
            0 <= i < connection_string@.len() && connection_string@[i] == ':';
        assert(false);
    }
    String::new()
}

} // verus!
