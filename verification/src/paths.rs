//! Derivation of the default output path: the input path with its file
//! extension replaced by "tzx".
//!
//! Paths are handled as raw bytes, as Unix paths are. The file name is
//! located the way std's path handling locates it: trailing separators and
//! trailing `.` components are ignored, and the file name is what then
//! follows the last `/`. Its extension starts at its last `.`, except that a
//! `.` as the file name's first byte (a hidden file such as `.config`)
//! starts no extension. A path with no file name — empty, a root, or ending
//! in a `..` component — is returned unchanged; otherwise everything after
//! the file name's stem is replaced by ".tzx".

use vstd::prelude::*;

verus! {

/// The byte of the path separator `/`.
pub const SEPARATOR: u8 = 0x2f;

/// The byte of the extension separator `.`.
pub const DOT: u8 = 0x2e;

/// The bytes of the extension ".tzx" that `target` appends.
pub open spec fn tzx_extension() -> Seq<u8> {
    seq![0x2eu8, 0x74u8, 0x7au8, 0x78u8]
}

/// The length of `s[0], ..., s[i - 1]` once trailing separators and
/// trailing `.` components are removed: a trailing `/` is dropped, and so
/// is a trailing `.` that stands at the start of the path or right after a
/// `/` (a current-directory component, not part of a name such as `..`).
pub open spec fn trimmed_len(s: Seq<u8>, i: int) -> int
    recommends
        i <= s.len(),
    decreases i,
{
    if i <= 0 {
        0
    } else if s[i - 1] == SEPARATOR {
        trimmed_len(s, i - 1)
    } else if s[i - 1] == DOT && (i == 1 || s[i - 2] == SEPARATOR) {
        trimmed_len(s, i - 1)
    } else {
        i
    }
}

/// The index of the last `/` among `s[0], ..., s[i - 1]`, or -1 when there
/// is none.
pub open spec fn last_separator(s: Seq<u8>, i: int) -> int
    recommends
        i <= s.len(),
    decreases i,
{
    if i <= 0 {
        -1
    } else if s[i - 1] == SEPARATOR {
        i - 1
    } else {
        last_separator(s, i - 1)
    }
}

/// The index of the last `.` among `s[0], ..., s[i - 1]` that lies after
/// every `/` there, or -1 when there is none.
pub open spec fn last_dot(s: Seq<u8>, i: int) -> int
    recommends
        i <= s.len(),
    decreases i,
{
    if i <= 0 {
        -1
    } else if s[i - 1] == SEPARATOR {
        -1
    } else if s[i - 1] == DOT {
        i - 1
    } else {
        last_dot(s, i - 1)
    }
}

/// The path that `target` returns for the input path `s`. With trailing
/// separators and trailing `.` components ignored, the file name is what
/// follows the last `/`. A path whose file name is absent or `..` comes
/// back unchanged. Otherwise the result is the bytes up to the file name's
/// last `.` — up to the file name's end when it has no `.` beyond its first
/// byte — followed by ".tzx"; whatever trailed the file name is dropped.
pub open spec fn target_path(s: Seq<u8>) -> Seq<u8> {
    let t = trimmed_len(s, s.len() as int);
    let name_start = last_separator(s, t) + 1;
    let name = s.subrange(name_start, t);
    if name.len() == 0 || name == seq![DOT, DOT] {
        s
    } else {
        let dot = last_dot(s, t);
        if dot > name_start {
            s.subrange(0, dot) + tzx_extension()
        } else {
            s.subrange(0, t) + tzx_extension()
        }
    }
}

/// Takes a path to a TAP file and returns the equivalent TZX path: the path
/// with its extension replaced by "tzx", trailing separators and trailing
/// `.` components dropped. A file name without an extension gets ".tzx"
/// appended; a path with no file name — empty, a root, or ending in a `..`
/// component — comes back unchanged.
pub fn target(tap_name: &[u8]) -> (r: Vec<u8>)
    ensures
        r@ == target_path(tap_name@),
{
    let n: usize = tap_name.len();

    let mut t: usize = n;
    while t > 0 && (tap_name[t - 1] == SEPARATOR || (tap_name[t - 1] == DOT && (t == 1
        || tap_name[t - 2] == SEPARATOR)))
        invariant
            t <= n,
            n == tap_name@.len(),
            trimmed_len(tap_name@, n as int) == trimmed_len(tap_name@, t as int),
        decreases t,
    {
        t = t - 1;
    }
    proof {
        assert(trimmed_len(tap_name@, n as int) == t as int);
    }

    let mut sep_found: bool = false;
    let mut sep: usize = 0;
    let mut i: usize = t;
    while i > 0 && !sep_found
        invariant
            i <= t <= n,
            n == tap_name@.len(),
            !sep_found ==> last_separator(tap_name@, t as int) == last_separator(
                tap_name@,
                i as int,
            ),
            sep_found ==> sep < t && last_separator(tap_name@, t as int) == sep as int,
        decreases i,
    {
        i = i - 1;
        if tap_name[i] == SEPARATOR {
            sep_found = true;
            sep = i;
        }
    }

    let mut dot_found: bool = false;
    let mut dot: usize = 0;
    let mut j: usize = t;
    while j > 0 && !dot_found
        invariant_except_break
            j <= t <= n,
            n == tap_name@.len(),
            !dot_found ==> last_dot(tap_name@, t as int) == last_dot(tap_name@, j as int),
            dot_found ==> dot < t && last_dot(tap_name@, t as int) == dot as int,
        ensures
            dot_found ==> dot < t && last_dot(tap_name@, t as int) == dot as int,
            !dot_found ==> last_dot(tap_name@, t as int) == -1,
        decreases j,
    {
        j = j - 1;
        if tap_name[j] == SEPARATOR {
            break ;
        }
        if tap_name[j] == DOT {
            dot_found = true;
            dot = j;
        }
    }

    let name_start: usize = if sep_found {
        sep + 1
    } else {
        0
    };
    let name_len: usize = t - name_start;
    proof {
        assert(name_start as int == last_separator(tap_name@, t as int) + 1);
    }

    let unchanged: bool = name_len == 0 || (name_len == 2 && tap_name[name_start] == DOT
        && tap_name[name_start + 1] == DOT);
    proof {
        let name = tap_name@.subrange(name_start as int, t as int);
        assert(unchanged <==> (name.len() == 0 || name == seq![DOT, DOT])) by {
            if name_len == 2 && tap_name@[name_start as int] == DOT && tap_name@[name_start + 1]
                == DOT {
                assert(name =~= seq![DOT, DOT]);
            }
            if name == seq![DOT, DOT] {
                assert(name.len() == 2 && name[0] == DOT && name[1] == DOT);
            }
        }
    }

    let copy_len: usize = if unchanged {
        n
    } else if dot_found && dot > name_start {
        dot
    } else {
        t
    };

    let mut r: Vec<u8> = Vec::new();
    let mut k: usize = 0;
    while k < copy_len
        invariant
            k <= copy_len,
            copy_len <= n,
            n == tap_name@.len(),
            r@ == tap_name@.subrange(0, k as int),
        decreases copy_len - k,
    {
        r.push(tap_name[k]);
        proof {
            assert(r@ =~= tap_name@.subrange(0, k + 1));
        }
        k = k + 1;
    }

    if !unchanged {
        r.push(DOT);
        r.push(0x74);
        r.push(0x7a);
        r.push(0x78);
    }

    proof {
        if unchanged {
            assert(tap_name@.subrange(0, n as int) =~= tap_name@);
            assert(r@ =~= target_path(tap_name@));
        } else if dot_found && dot > name_start {
            assert(r@ =~= tap_name@.subrange(0, dot as int) + tzx_extension());
            assert(r@ =~= target_path(tap_name@));
        } else {
            assert(!(last_dot(tap_name@, t as int) > name_start as int));
            assert(r@ =~= tap_name@.subrange(0, t as int) + tzx_extension());
            assert(r@ =~= target_path(tap_name@));
        }
    }
    r
}

} // verus!
