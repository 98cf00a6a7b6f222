use vstd::prelude::*;
use vstd::utf8::{decode_utf8, valid_utf8};
use crate::text::str_from_utf8;

verus! {

/// The path separator, as a character.
pub const SEPARATOR: char = '/';

/// The path separator, as a byte.
pub const SEPARATOR_BYTE: u8 = 47;

/// The string with every trailing separator removed.
pub open spec fn trim_end_separators(s: Seq<char>) -> Seq<char>
    decreases s.len(),
{
    if s.len() > 0 && s.last() == SEPARATOR {
        trim_end_separators(s.drop_last())
    } else {
        s
    }
}

/// Index of the last separator in `s`, or -1 where there is none.
pub open spec fn last_separator(s: Seq<char>) -> int
    decreases s.len(),
{
    if s.len() == 0 {
        -1
    } else if s.last() == SEPARATOR {
        s.len() - 1
    } else {
        last_separator(s.drop_last())
    }
}

/// The last component of a path, read lexically: what follows the last
/// separator once trailing separators are removed.
pub open spec fn filename_of(s: Seq<char>) -> Seq<char> {
    let t = trim_end_separators(s);
    t.subrange(last_separator(t) + 1, t.len() as int)
}

proof fn lemma_last_separator_bounds(s: Seq<char>)
    ensures
        -1 <= last_separator(s) < s.len(),
        last_separator(s) >= 0 ==> s[last_separator(s)] == SEPARATOR,
    decreases s.len(),
{
    if s.len() > 0 && s.last() != SEPARATOR {
        lemma_last_separator_bounds(s.drop_last());
    }
}

/// Lexically extracts the filename from a path. Returns an empty string if
/// not found.
pub fn filename_str(path: &str) -> (r: &str)
    ensures
        r@ == filename_of(path@),
{
    let n = path.unicode_len();
    let mut end: usize = n;
    assert(path@.subrange(0, n as int) =~= path@);
    while end > 0 && path.get_char(end - 1) == SEPARATOR
        invariant
            end <= n == path@.len(),
            trim_end_separators(path@.subrange(0, end as int)) == trim_end_separators(path@),
        decreases end,
    {
        assert(path@.subrange(0, end as int).drop_last() =~= path@.subrange(0, end - 1));
        end = end - 1;
    }
    let ghost t = path@.subrange(0, end as int);
    assert(trim_end_separators(t) == t);
    let mut start: usize = end;
    while start > 0 && path.get_char(start - 1) != SEPARATOR
        invariant
            start <= end <= n == path@.len(),
            t == path@.subrange(0, end as int),
            last_separator(t) == last_separator(path@.subrange(0, start as int)),
        decreases start,
    {
        assert(path@.subrange(0, start as int).drop_last() =~= path@.subrange(0, start - 1));
        start = start - 1;
    }
    proof {
        if start > 0 {
            assert(path@.subrange(0, start as int).last() == SEPARATOR);
        }
        lemma_last_separator_bounds(t);
    }
    path.substring_char(start, end)
}

/// Determines whether the given path can be recorded. It is assumed that the
/// path is a completely resolved absolute path; on UNIX every such path is
/// supported.
pub fn is_supported(path: &str) -> (r: bool)
    ensures
        r,
{
    true
}

/// Why a path cannot be used.
#[derive(Debug, PartialEq, Eq, Structural)]
pub enum PathError {
    /// The path's bytes are not valid UTF-8.
    InvalidUnicode,
}

/// Reads a path's bytes as text.
pub fn to_str(path: &[u8]) -> (r: Result<&str, PathError>)
    ensures
        r is Ok <==> valid_utf8(path@),
        r matches Ok(s) ==> s@ == decode_utf8(path@),
        r matches Err(e) ==> e == PathError::InvalidUnicode,
{
    match str_from_utf8(path) {
        Some(s) => {
            proof {
                vstd::utf8::encode_utf8_decode_utf8(s@);
            }
            Ok(s)
        },
        None => Err(PathError::InvalidUnicode),
    }
}

/// Index of the last separator byte in `s`, or -1 where there is none.
pub open spec fn last_separator_byte(s: Seq<u8>) -> int
    decreases s.len(),
{
    if s.len() == 0 {
        -1
    } else if s.last() == SEPARATOR_BYTE {
        s.len() - 1
    } else {
        last_separator_byte(s.drop_last())
    }
}

/// Applies one path component to a partly normalized path: `` and `.` change
/// nothing, `..` drops the last component (never the root), and any other
/// component is appended after a separator.
pub open spec fn apply_component(r: Seq<u8>, comp: Seq<u8>) -> Seq<u8> {
    if comp.len() == 0 || comp == seq![46u8] {
        r
    } else if comp == seq![46u8, 46u8] {
        let idx = last_separator_byte(r);
        if idx >= 0 {
            r.subrange(0, if idx > 1 { idx } else { 1 })
        } else {
            r
        }
    } else if r.len() > 0 && r.last() == SEPARATOR_BYTE {
        r + comp
    } else {
        r.push(SEPARATOR_BYTE) + comp
    }
}

/// Scans the rest `p` of a path, with `cur` the component read so far, and
/// applies each component as it ends.
pub open spec fn scan_components(r: Seq<u8>, p: Seq<u8>, cur: Seq<u8>) -> Seq<u8>
    decreases p.len(),
{
    if p.len() == 0 {
        apply_component(r, cur)
    } else if p[0] == SEPARATOR_BYTE {
        scan_components(apply_component(r, cur), p.drop_first(), seq![])
    } else {
        scan_components(r, p.drop_first(), cur.push(p[0]))
    }
}

/// The lexical normalization of `path`, resolved against `current_dir` where
/// it is relative.
pub open spec fn normalized(path: Seq<u8>, current_dir: Seq<u8>) -> Seq<u8> {
    let start = if path.len() > 0 && path[0] == SEPARATOR_BYTE {
        seq![SEPARATOR_BYTE]
    } else {
        current_dir
    };
    scan_components(start, path, seq![])
}

proof fn lemma_last_separator_byte_bounds(s: Seq<u8>)
    ensures
        -1 <= last_separator_byte(s) < s.len(),
    decreases s.len(),
{
    if s.len() > 0 && s.last() != SEPARATOR_BYTE {
        lemma_last_separator_byte_bounds(s.drop_last());
    }
}

fn apply_component_exec(result: &mut Vec<u8>, comp: &Vec<u8>)
    ensures
        final(result)@ == apply_component(old(result)@, comp@),
{
    let n = comp.len();
    if n == 0 || (n == 1 && comp[0] == 46u8) {
        proof {
            if n == 1 {
                assert(comp@ =~= seq![46u8]);
            }
        }
        return;
    }
    if n == 2 && comp[0] == 46u8 && comp[1] == 46u8 {
        assert(comp@ =~= seq![46u8, 46u8]);
        let mut j: usize = result.len();
        assert(result@.subrange(0, j as int) =~= result@);
        while j > 0 && result[j - 1] != SEPARATOR_BYTE
            invariant
                j <= result@.len(),
                result@ == old(result)@,
                last_separator_byte(result@) == last_separator_byte(result@.subrange(0, j as int)),
            decreases j,
        {
            assert(result@.subrange(0, j as int).drop_last() =~= result@.subrange(0, j - 1));
            j = j - 1;
        }
        proof {
            lemma_last_separator_byte_bounds(result@);
            if j == 0 {
                assert(result@.subrange(0, 0) =~= Seq::<u8>::empty());
            }
        }
        if j > 0 {
            let idx = j - 1;
            result.truncate(if idx > 1 { idx } else { 1 });
        }
        return;
    }
    proof {
        if n == 1 {
            assert(comp@ != seq![46u8]) by {
                assert(seq![46u8][0] == 46u8);
            }
        }
        if n == 2 {
            assert(comp@ != seq![46u8, 46u8]) by {
                assert(seq![46u8, 46u8][0] == 46u8);
                assert(seq![46u8, 46u8][1] == 46u8);
            }
        }
    }
    let rl = result.len();
    if rl == 0 || result[rl - 1] != SEPARATOR_BYTE {
        result.push(SEPARATOR_BYTE);
    }
    let mut k: usize = 0;
    let ghost base = result@;
    while k < n
        invariant
            k <= n == comp@.len(),
            result@ == base + comp@.subrange(0, k as int),
        decreases n - k,
    {
        result.push(comp[k]);
        assert(base + comp@.subrange(0, k + 1) =~= base + comp@.subrange(0, k as int) + seq![comp@[k as int]]);
        k = k + 1;
    }
    assert(comp@.subrange(0, n as int) =~= comp@);
}

/// Resolves all path components lexically (without accessing the
/// filesystem); a relative path is resolved against `current_dir`.
pub fn normalize(path: &[u8], current_dir: &[u8]) -> (r: Vec<u8>)
    ensures
        r@ == normalized(path@, current_dir@),
{
    let n = path.len();
    let mut result: Vec<u8> = Vec::new();
    if n > 0 && path[0] == SEPARATOR_BYTE {
        result.push(SEPARATOR_BYTE);
    } else {
        let mut k: usize = 0;
        while k < current_dir.len()
            invariant
                k <= current_dir@.len(),
                result@ == current_dir@.subrange(0, k as int),
            decreases current_dir@.len() - k,
        {
            result.push(current_dir[k]);
            assert(current_dir@.subrange(0, k + 1) =~= current_dir@.subrange(0, k as int).push(current_dir@[k as int]));
            k = k + 1;
        }
        assert(current_dir@.subrange(0, k as int) =~= current_dir@);
    }
    assert(result@ =~= (if n > 0 && path@[0] == SEPARATOR_BYTE { seq![SEPARATOR_BYTE] } else { current_dir@ }));
    let mut cur: Vec<u8> = Vec::new();
    let mut i: usize = 0;
    assert(path@.subrange(0, n as int) =~= path@);
    while i < n
        invariant
            i <= n == path@.len(),
            scan_components(result@, path@.subrange(i as int, n as int), cur@) == normalized(path@, current_dir@),
        decreases n - i,
    {
        let ghost p = path@.subrange(i as int, n as int);
        assert(p.drop_first() =~= path@.subrange(i + 1, n as int));
        if path[i] == SEPARATOR_BYTE {
            apply_component_exec(&mut result, &cur);
            cur = Vec::new();
            assert(cur@ =~= Seq::<u8>::empty());
        } else {
            cur.push(path[i]);
        }
        i = i + 1;
    }
    apply_component_exec(&mut result, &cur);
    result
}

} // verus!
