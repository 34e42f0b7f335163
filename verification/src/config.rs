//! The per-user configuration lookup that names the chart root directory.
//!
//! The client's configuration file is a sequence of text lines. The first
//! line that starts with the directory key and carries an equals sign
//! names the chart root: the value stands between the first equals sign
//! and the next one (or the line's end), trimmed of surrounding
//! whitespace. Without such a line the default root applies.

use vstd::prelude::*;

verus! {

/// A byte of ASCII whitespace, as trimming removes at a value's ends.
pub open spec fn is_ws(b: u8) -> bool {
    b == 32 || (9 <= b && b <= 13)
}

/// The configuration key that names the chart root.
pub open spec fn dir_key() -> Seq<u8> {
    seq![66u8, 101u8, 97u8, 116u8, 109u8, 97u8, 112u8, 68u8, 105u8, 114u8, 101u8, 99u8, 116u8, 111u8, 114u8, 121u8]
}

/// The chart root that applies when no configuration line names one.
pub open spec fn default_dir() -> Seq<u8> {
    seq![83u8, 111u8, 110u8, 103u8, 115u8]
}

/// The index of the first occurrence of `b` at or after `from`, or the
/// length when there is none.
pub open spec fn find_byte(s: Seq<u8>, from: int, b: u8) -> int
    decreases s.len() - from,
{
    if from < 0 || from >= s.len() {
        s.len() as int
    } else if s[from] == b {
        from
    } else {
        find_byte(s, from + 1, b)
    }
}

/// A value without its leading whitespace.
pub open spec fn trim_start(s: Seq<u8>) -> Seq<u8>
    decreases s.len(),
{
    if s.len() > 0 && is_ws(s[0]) {
        trim_start(s.drop_first())
    } else {
        s
    }
}

/// A value without its trailing whitespace.
pub open spec fn trim_end(s: Seq<u8>) -> Seq<u8>
    decreases s.len(),
{
    if s.len() > 0 && is_ws(s.last()) {
        trim_end(s.drop_last())
    } else {
        s
    }
}

/// A value without surrounding whitespace.
pub open spec fn trimmed(s: Seq<u8>) -> Seq<u8> {
    trim_end(trim_start(s))
}

/// The chart root a single configuration line names, if it names one: the
/// line must start with the directory key and hold an equals sign, and the
/// value stands between the first equals sign and the next (or the end),
/// trimmed.
pub open spec fn line_value(line: Seq<u8>) -> Option<Seq<u8>> {
    if line.len() >= 16 && line.take(16) == dir_key() {
        let e1 = find_byte(line, 0, 61u8);
        if e1 == line.len() {
            Option::None
        } else {
            let e2 = find_byte(line, e1 + 1, 61u8);
            Option::Some(trimmed(line.subrange(e1 + 1, e2)))
        }
    } else {
        Option::None
    }
}

/// The chart root a configuration names: the first line that names one
/// wins; without any, the default.
pub open spec fn spec_beatmap_directory(lines: Seq<Seq<u8>>) -> Seq<u8>
    decreases lines.len(),
{
    if lines.len() == 0 {
        default_dir()
    } else {
        match line_value(lines[0]) {
            Option::Some(v) => v,
            Option::None => spec_beatmap_directory(lines.drop_first()),
        }
    }
}

/// The spec-level values of the configuration lines.
pub open spec fn lines_view(ls: Seq<Vec<u8>>) -> Seq<Seq<u8>> {
    ls.map_values(|l: Vec<u8>| l@)
}

/// An index with the characteristic properties of `find_byte` is
/// `find_byte`.
proof fn lemma_find_byte_unique(s: Seq<u8>, from: int, b: u8, r: int)
    requires
        0 <= from <= r <= s.len(),
        forall|j: int| from <= j < r ==> s[j] != b,
        r < s.len() ==> s[r] == b,
    ensures
        r == find_byte(s, from, b),
    decreases r - from,
{
    if from < r {
        lemma_find_byte_unique(s, from + 1, b, r);
    }
}

/// Dropping counted leading whitespace is exactly `trim_start`.
proof fn lemma_trim_start_skip(s: Seq<u8>, k: int)
    requires
        0 <= k <= s.len(),
        forall|j: int| 0 <= j < k ==> is_ws(s[j]),
        k < s.len() ==> !is_ws(s[k]),
    ensures
        trim_start(s) == s.skip(k),
    decreases k,
{
    if k == 0 {
        assert(s.skip(0) =~= s);
    } else {
        assert(is_ws(s[0]));
        assert forall|j: int| 0 <= j < k - 1 implies is_ws(s.drop_first()[j]) by {
            assert(s.drop_first()[j] == s[j + 1]);
        }
        if k - 1 < s.len() - 1 {
            assert(s.drop_first()[k - 1] == s[k]);
        }
        lemma_trim_start_skip(s.drop_first(), k - 1);
        assert(s.drop_first().skip(k - 1) =~= s.skip(k));
    }
}

/// Dropping counted trailing whitespace is exactly `trim_end`.
proof fn lemma_trim_end_take(s: Seq<u8>, m: int)
    requires
        0 <= m <= s.len(),
        forall|j: int| m <= j < s.len() ==> is_ws(s[j]),
        m > 0 ==> !is_ws(s[m - 1]),
    ensures
        trim_end(s) == s.take(m),
    decreases s.len(),
{
    if m == s.len() {
        assert(s.take(m) =~= s);
    } else {
        assert(is_ws(s[s.len() - 1]));
        assert forall|j: int| m <= j < s.len() - 1 implies is_ws(s.drop_last()[j]) by {
            assert(s.drop_last()[j] == s[j]);
        }
        if m > 0 {
            assert(s.drop_last()[m - 1] == s[m - 1]);
        }
        lemma_trim_end_take(s.drop_last(), m);
        assert(s.drop_last().take(m) =~= s.take(m));
    }
}

/// The directory key, as bytes.
fn dir_key_vec() -> (v: Vec<u8>)
    ensures
        v@ == dir_key(),
{
    let mut v: Vec<u8> = Vec::new();
    v.push(66);
    v.push(101);
    v.push(97);
    v.push(116);
    v.push(109);
    v.push(97);
    v.push(112);
    v.push(68);
    v.push(105);
    v.push(114);
    v.push(101);
    v.push(99);
    v.push(116);
    v.push(111);
    v.push(114);
    v.push(121);
    proof {
        assert(v@ =~= dir_key());
    }
    v
}

/// The first occurrence of `b` at or after `from`, or the length.
fn find_byte_exec(s: &Vec<u8>, from: usize, b: u8) -> (r: usize)
    requires
        from <= s@.len(),
    ensures
        r as int == find_byte(s@, from as int, b),
        from <= r <= s@.len(),
{
    let mut i = from;
    while i < s.len()
        invariant
            from <= i <= s@.len(),
            forall|j: int| from <= j < i ==> s@[j] != b,
        decreases s@.len() - i,
    {
        if s[i] == b {
            proof {
                lemma_find_byte_unique(s@, from as int, b, i as int);
            }
            return i;
        }
        i = i + 1;
    }
    proof {
        lemma_find_byte_unique(s@, from as int, b, s@.len() as int);
    }
    i
}

/// The chart root a single configuration line names, if it names one.
fn line_value_exec(line: &Vec<u8>) -> (r: Option<Vec<u8>>)
    ensures
        match r {
            Option::Some(v) => line_value(line@) == Option::Some(v@),
            Option::None => line_value(line@) is None,
        },
{
    if line.len() < 16 {
        return Option::None;
    }
    let key = dir_key_vec();
    let mut i: usize = 0;
    while i < 16
        invariant
            i <= 16,
            line@.len() >= 16,
            key@ == dir_key(),
            forall|j: int| 0 <= j < i ==> line@[j] == dir_key()[j],
        decreases 16 - i,
    {
        if line[i] != key[i] {
            proof {
                assert(line@.take(16)[i as int] == line@[i as int]);
            }
            return Option::None;
        }
        i = i + 1;
    }
    proof {
        assert(line@.take(16) =~= dir_key());
    }
    let e1 = find_byte_exec(line, 0, 61);
    if e1 == line.len() {
        return Option::None;
    }
    let e2 = find_byte_exec(line, e1 + 1, 61);
    let ghost raw = line@.subrange(e1 + 1, e2 as int);
    proof {
        assert(e2 <= line@.len());
    }
    let mut lo = e1 + 1;
    while lo < e2 && is_ws_exec(line[lo])
        invariant
            e1 + 1 <= lo <= e2 <= line@.len(),
            raw == line@.subrange(e1 + 1, e2 as int),
            forall|j: int| 0 <= j < lo - e1 - 1 ==> is_ws(raw[j]),
        decreases e2 - lo,
    {
        proof {
            assert(raw[lo - e1 - 1] == line@[lo as int]);
        }
        lo = lo + 1;
    }
    proof {
        if lo < e2 {
            assert(raw[lo - e1 - 1] == line@[lo as int]);
        }
        lemma_trim_start_skip(raw, lo - e1 - 1);
    }
    let ghost stripped = raw.skip(lo - e1 - 1);
    let mut hi = e2;
    while hi > lo && is_ws_exec(line[hi - 1])
        invariant
            lo <= hi <= e2,
            e1 + 1 <= lo <= e2 <= line@.len(),
            stripped == raw.skip(lo - e1 - 1),
            raw == line@.subrange(e1 + 1, e2 as int),
            forall|j: int| hi - lo <= j < stripped.len() ==> is_ws(stripped[j]),
        decreases hi,
    {
        proof {
            assert(stripped[hi - 1 - lo] == line@[hi - 1]);
        }
        hi = hi - 1;
    }
    proof {
        if hi > lo {
            assert(stripped[hi - 1 - lo] == line@[hi - 1]);
        }
        lemma_trim_end_take(stripped, hi - lo);
    }
    let mut out: Vec<u8> = Vec::new();
    let mut j = lo;
    while j < hi
        invariant
            lo <= j <= hi <= line@.len(),
            out@ == line@.subrange(lo as int, j as int),
        decreases hi - j,
    {
        out.push(line[j]);
        proof {
            assert(line@.subrange(lo as int, j + 1) =~= line@.subrange(lo as int, j as int).push(
                line@[j as int],
            ));
        }
        j = j + 1;
    }
    proof {
        assert(out@ =~= stripped.take(hi - lo));
        assert(trimmed(raw) == out@);
    }
    Option::Some(out)
}

/// Whether a byte is ASCII whitespace.
fn is_ws_exec(b: u8) -> (r: bool)
    ensures
        r == is_ws(b),
{
    b == 32 || (9 <= b && b <= 13)
}

/// Resolves the chart root directory from the configuration's lines: the
/// first line that names one wins, and without any the default root
/// applies.
pub fn beatmap_directory(lines: &Vec<Vec<u8>>) -> (dir: Vec<u8>)
    ensures
        dir@ == spec_beatmap_directory(lines_view(lines@)),
{
    let ghost lv = lines_view(lines@);
    let mut i: usize = 0;
    proof {
        assert(lv.skip(0) =~= lv);
    }
    while i < lines.len()
        invariant
            i <= lines@.len(),
            lv == lines_view(lines@),
            spec_beatmap_directory(lv) == spec_beatmap_directory(lv.skip(i as int)),
        decreases lines@.len() - i,
    {
        let line = &lines[i];
        proof {
            assert(lv.skip(i as int)[0] == lv[i as int]);
            assert(lv[i as int] == line@);
        }
        match line_value_exec(line) {
            Option::Some(v) => {
                return v;
            },
            Option::None => {
                proof {
                    assert(lv.skip(i as int).drop_first() =~= lv.skip(i + 1));
                }
            },
        }
        i = i + 1;
    }
    proof {
        assert(lv.skip(i as int).len() == 0);
    }
    let mut dir: Vec<u8> = Vec::new();
    dir.push(83);
    dir.push(111);
    dir.push(110);
    dir.push(103);
    dir.push(115);
    proof {
        assert(dir@ =~= default_dir());
    }
    dir
}

} // verus!
