//! Extraction of the `PATH` value from a login shell's output.
//!
//! The shell is asked to echo a marker followed by `$PATH`; its output may
//! hold arbitrary other lines of noise.  The value is the first line that,
//! after trimming, starts with the marker and has a non-empty remainder.

use vstd::prelude::*;
use vstd::string::StrSliceExecFns;

verus! {

/// A character with the Unicode `White_Space` property — exactly what
/// `str::trim` removes.
pub open spec fn is_wspace(c: char) -> bool {
    ||| (0x09 <= c as int && c as int <= 0x0d)
    ||| c as int == 0x20
    ||| c as int == 0x85
    ||| c as int == 0xa0
    ||| c as int == 0x1680
    ||| (0x2000 <= c as int && c as int <= 0x200a)
    ||| c as int == 0x2028
    ||| c as int == 0x2029
    ||| c as int == 0x202f
    ||| c as int == 0x205f
    ||| c as int == 0x3000
}

fn is_wspace_exec(c: char) -> (r: bool)
    ensures
        r == is_wspace(c),
{
    let u = c as u32;
    (0x09 <= u && u <= 0x0d) || u == 0x20 || u == 0x85 || u == 0xa0 || u == 0x1680 || (0x2000 <= u
        && u <= 0x200a) || u == 0x2028 || u == 0x2029 || u == 0x202f || u == 0x205f || u == 0x3000
}

/// Index of the first character that is not whitespace, or the length.
pub open spec fn trim_start_idx(s: Seq<char>) -> int
    decreases s.len(),
{
    if s.len() == 0 {
        0
    } else if is_wspace(s[0]) {
        1 + trim_start_idx(s.drop_first())
    } else {
        0
    }
}

/// One past the last character that is not whitespace, or zero.
pub open spec fn trim_end_idx(s: Seq<char>) -> int
    decreases s.len(),
{
    if s.len() == 0 {
        0
    } else if is_wspace(s.last()) {
        trim_end_idx(s.drop_last())
    } else {
        s.len() as int
    }
}

/// What `str::trim` leaves: the text between the leading and the trailing
/// whitespace.
pub open spec fn trim_of(s: Seq<char>) -> Seq<char> {
    let a = trim_start_idx(s);
    let b = trim_end_idx(s);
    if a <= b {
        s.subrange(a, b)
    } else {
        Seq::empty()
    }
}

/// Index of the first line break, or the length.
pub open spec fn newline_idx(s: Seq<char>) -> int
    decreases s.len(),
{
    if s.len() == 0 {
        0
    } else if s[0] == '\n' {
        0
    } else {
        1 + newline_idx(s.drop_first())
    }
}

/// The lines of a text, split at line breaks; a trailing line break opens
/// no further line.
pub open spec fn lines_of(s: Seq<char>) -> Seq<Seq<char>>
    decreases s.len(),
{
    if s.len() == 0 {
        Seq::empty()
    } else {
        let i = newline_idx(s);
        if 0 <= i && i < s.len() {
            seq![s.subrange(0, i)] + lines_of(s.subrange(i + 1, s.len() as int))
        } else {
            seq![s]
        }
    }
}

pub open spec fn prefix_of(p: Seq<char>, s: Seq<char>) -> bool {
    p.len() <= s.len() && s.subrange(0, p.len() as int) == p
}

/// What one line of shell output contributes: the trimmed text after the
/// marker, where the trimmed line starts with the marker and the remainder
/// is non-empty.
pub open spec fn line_value(line: Seq<char>) -> Option<Seq<char>> {
    let t = trim_of(line);
    let p = "__ZED_SWARM_PATH__"@;
    if prefix_of(p, t) {
        let rest = trim_of(t.subrange(p.len() as int, t.len() as int));
        if rest.len() > 0 {
            Some(rest)
        } else {
            None
        }
    } else {
        None
    }
}

pub open spec fn first_line_value(ls: Seq<Seq<char>>) -> Option<Seq<char>>
    decreases ls.len(),
{
    if ls.len() == 0 {
        None
    } else if line_value(ls[0]) is Some {
        line_value(ls[0])
    } else {
        first_line_value(ls.drop_first())
    }
}

/// The `PATH` the whole output reports: the first line that carries one.
pub open spec fn parse_spec(s: Seq<char>) -> Option<Seq<char>> {
    first_line_value(lines_of(s))
}

// ---------------------------------------------------------------------------
// Characterizations of the index functions by their scans
// ---------------------------------------------------------------------------

proof fn lemma_trim_start_idx_at(s: Seq<char>, a: int)
    requires
        0 <= a <= s.len(),
        forall|k: int| 0 <= k < a ==> is_wspace(#[trigger] s[k]),
        a < s.len() ==> !is_wspace(s[a]),
    ensures
        trim_start_idx(s) == if a < s.len() {
            a
        } else {
            s.len() as int
        },
    decreases s.len(),
{
    if s.len() != 0 && a != 0 {
        assert(is_wspace(s[0]));
        assert forall|k: int| 0 <= k < a - 1 implies is_wspace(#[trigger] s.drop_first()[k]) by {
            assert(s.drop_first()[k] == s[k + 1]);
        }
        lemma_trim_start_idx_at(s.drop_first(), a - 1);
    }
}

proof fn lemma_trim_end_idx_at(s: Seq<char>, b: int)
    requires
        0 <= b <= s.len(),
        forall|k: int| b <= k < s.len() ==> is_wspace(#[trigger] s[k]),
        b > 0 ==> !is_wspace(s[b - 1]),
    ensures
        trim_end_idx(s) == b,
    decreases s.len(),
{
    if s.len() != 0 {
        if b == s.len() {
            assert(!is_wspace(s.last()));
        } else {
            assert(is_wspace(s.last()));
            assert forall|k: int| b <= k < s.drop_last().len() implies is_wspace(
                #[trigger] s.drop_last()[k],
            ) by {
                assert(s.drop_last()[k] == s[k]);
            }
            lemma_trim_end_idx_at(s.drop_last(), b);
        }
    }
}

proof fn lemma_newline_idx_at(s: Seq<char>, i: int)
    requires
        0 <= i <= s.len(),
        forall|k: int| 0 <= k < i ==> #[trigger] s[k] != '\n',
        i < s.len() ==> s[i] == '\n',
    ensures
        newline_idx(s) == if i < s.len() {
            i
        } else {
            s.len() as int
        },
    decreases s.len(),
{
    if s.len() != 0 && i != 0 {
        assert(s[0] != '\n');
        assert forall|k: int| 0 <= k < i - 1 implies #[trigger] s.drop_first()[k] != '\n' by {
            assert(s.drop_first()[k] == s[k + 1]);
        }
        lemma_newline_idx_at(s.drop_first(), i - 1);
    }
}

// ---------------------------------------------------------------------------
// Executable scans
// ---------------------------------------------------------------------------

/// First position at or after `start`, before `end`, holding a character
/// that is not whitespace — or `end`.
fn scan_non_ws(output: &str, start: usize, end: usize) -> (a: usize)
    requires
        start <= end <= output@.len(),
    ensures
        start <= a <= end,
        forall|k: int| start <= k < a ==> is_wspace(#[trigger] output@[k]),
        a < end ==> !is_wspace(output@[a as int]),
{
    let mut a = start;
    while a < end
        invariant
            start <= a <= end,
            end <= output@.len(),
            forall|k: int| start <= k < a ==> is_wspace(#[trigger] output@[k]),
        decreases end - a,
    {
        if !is_wspace_exec(output.get_char(a)) {
            return a;
        }
        a = a + 1;
    }
    a
}

/// One past the last non-whitespace position in `[low, end)` — or `low`.
fn scan_non_ws_end(output: &str, low: usize, end: usize) -> (b: usize)
    requires
        low <= end <= output@.len(),
    ensures
        low <= b <= end,
        forall|k: int| b <= k < end ==> is_wspace(#[trigger] output@[k]),
        b > low ==> !is_wspace(output@[b - 1]),
{
    let mut b = end;
    while b > low
        invariant
            low <= b <= end,
            end <= output@.len(),
            forall|k: int| b <= k < end ==> is_wspace(#[trigger] output@[k]),
        decreases b,
    {
        if !is_wspace_exec(output.get_char(b - 1)) {
            return b;
        }
        b = b - 1;
    }
    b
}

/// First line break at or after `start` — or the length.
fn scan_newline(output: &str, start: usize, n: usize) -> (j: usize)
    requires
        start <= n <= output@.len(),
    ensures
        start <= j <= n,
        forall|k: int| start <= k < j ==> #[trigger] output@[k] != '\n',
        j < n ==> output@[j as int] == '\n',
{
    let mut j = start;
    while j < n
        invariant
            start <= j <= n,
            n <= output@.len(),
            forall|k: int| start <= k < j ==> #[trigger] output@[k] != '\n',
        decreases n - j,
    {
        if output.get_char(j) == '\n' {
            return j;
        }
        j = j + 1;
    }
    j
}

/// Evaluate one line of the output, given as a character range.
fn line_result(output: &str, start: usize, end: usize) -> (r: Option<String>)
    requires
        start <= end <= output@.len(),
    ensures
        match r {
            Some(p) => line_value(output@.subrange(start as int, end as int)) == Some(p@),
            None => line_value(output@.subrange(start as int, end as int)) is None,
        },
{
    let ghost line = output@.subrange(start as int, end as int);
    let ghost marker = "__ZED_SWARM_PATH__"@;
    proof {
        reveal_strlit("__ZED_SWARM_PATH__");
        assert(marker.len() == 18);
    }
    let a = scan_non_ws(output, start, end);
    if a == end {
        // The line is all whitespace: it trims to nothing.
        proof {
            assert forall|k: int| 0 <= k < line.len() implies is_wspace(#[trigger] line[k]) by {
                assert(line[k] == output@[start + k]);
            }
            lemma_trim_start_idx_at(line, line.len() as int);
            lemma_trim_end_idx_at(line, 0);
            assert(trim_of(line).len() == 0);
            assert(!prefix_of(marker, trim_of(line)));
        }
        return None;
    }
    let b = scan_non_ws_end(output, a, end);
    proof {
        assert(!is_wspace(output@[a as int]));
        if b == a {
            assert(is_wspace(output@[a as int]));
        }
        assert(b > a);
        assert forall|k: int| 0 <= k < a - start implies is_wspace(#[trigger] line[k]) by {
            assert(line[k] == output@[start + k]);
        }
        assert(line[a - start] == output@[a as int]);
        lemma_trim_start_idx_at(line, a - start);
        assert forall|k: int| b - start <= k < line.len() implies is_wspace(
            #[trigger] line[k],
        ) by {
            assert(line[k] == output@[start + k]);
        }
        assert(line[b - start - 1] == output@[b - 1]);
        lemma_trim_end_idx_at(line, b - start);
        assert(trim_of(line) =~= output@.subrange(a as int, b as int));
    }
    let ghost t = trim_of(line);
    if b - a < 18 {
        proof {
            assert(t.len() < marker.len());
            assert(!prefix_of(marker, t));
        }
        return None;
    }
    // Match the marker character by character.
    let lit: &str = "__ZED_SWARM_PATH__";
    let mut k: usize = 0;
    while k < 18
        invariant
            k <= 18,
            start <= a,
            a + 18 <= b <= end <= output@.len(),
            lit@ == marker,
            marker == "__ZED_SWARM_PATH__"@,
            marker.len() == 18,
            t == trim_of(output@.subrange(start as int, end as int)),
            t =~= output@.subrange(a as int, b as int),
            forall|k2: int| 0 <= k2 < k ==> #[trigger] t[k2] == marker[k2],
        decreases 18 - k,
    {
        let c = output.get_char(a + k);
        let m = lit.get_char(k);
        if c != m {
            proof {
                assert(t[k as int] == output@[a + k]);
                if prefix_of(marker, t) {
                    assert(t.subrange(0, 18) == marker);
                    assert(t.subrange(0, 18)[k as int] == marker[k as int]);
                    assert(false);
                }
                assert(!prefix_of(marker, t));
                assert(trim_of(output@.subrange(start as int, end as int)) == t);
                assert(marker == "__ZED_SWARM_PATH__"@);
                assert(line_value(output@.subrange(start as int, end as int)) is None);
            }
            return None;
        }
        proof {
            assert(t[k as int] == output@[a + k]);
        }
        k = k + 1;
    }
    proof {
        assert(t.subrange(0, 18) =~= marker);
        assert(prefix_of(marker, t));
    }
    // Trim what follows the marker.
    let a2 = scan_non_ws(output, a + 18, b);
    let ghost inner = t.subrange(marker.len() as int, t.len() as int);
    proof {
        assert forall|k2: int| 0 <= k2 < a2 - (a + 18) implies is_wspace(
            #[trigger] inner[k2],
        ) by {
            assert(inner[k2] == output@[a + 18 + k2]);
        }
        if a2 < b {
            assert(inner[a2 - (a + 18)] == output@[a2 as int]);
        }
        lemma_trim_start_idx_at(inner, a2 - (a + 18));
        if inner.len() > 0 {
            assert(inner[inner.len() - 1] == output@[b - 1]);
            assert(!is_wspace(inner[inner.len() - 1]));
        }
        lemma_trim_end_idx_at(inner, inner.len() as int);
    }
    if a2 == b {
        proof {
            assert(inner.len() == b - a - 18);
            if inner.len() > 0 {
                assert(trim_of(inner) =~= inner.subrange(inner.len() as int, inner.len() as int));
            }
            assert(trim_of(inner).len() == 0);
        }
        return None;
    }
    let value = output.substring_char(a2, b).to_owned();
    proof {
        assert(trim_of(inner) =~= output@.subrange(a2 as int, b as int));
        assert(value@ == output@.subrange(a2 as int, b as int));
        assert(line_value(line) == Some(value@));
    }
    Some(value)
}

/// The first line of `output` that, trimmed, starts with the path marker
/// and carries a non-empty remainder yields that remainder, trimmed;
/// otherwise there is no path to import.
pub fn parse_login_shell_path_output(output: &str) -> (r: Option<String>)
    ensures
        match r {
            Some(p) => parse_spec(output@) == Some(p@),
            None => parse_spec(output@) is None,
        },
{
    let n = output.unicode_len();
    let mut start: usize = 0;
    proof {
        assert(output@.subrange(0, n as int) =~= output@);
    }
    while start < n
        invariant
            start <= n,
            n == output@.len(),
            parse_spec(output@) == first_line_value(
                lines_of(output@.subrange(start as int, n as int)),
            ),
        decreases n - start,
    {
        let ghost sfx = output@.subrange(start as int, n as int);
        let j = scan_newline(output, start, n);
        proof {
            assert(sfx.len() > 0);
            assert forall|k: int| 0 <= k < j - start implies #[trigger] sfx[k] != '\n' by {
                assert(sfx[k] == output@[start + k]);
            }
            if j < n {
                assert(sfx[j - start] == output@[j as int]);
            }
            lemma_newline_idx_at(sfx, j - start);
        }
        let r = line_result(output, start, j);
        proof {
            assert(output@.subrange(start as int, j as int) =~= sfx.subrange(0, j - start));
        }
        match r {
            Some(p) => {
                proof {
                    if j < n {
                        assert(lines_of(sfx) == seq![sfx.subrange(0, j - start)] + lines_of(
                            sfx.subrange(j - start + 1, sfx.len() as int),
                        ));
                        assert(lines_of(sfx)[0] == sfx.subrange(0, j - start));
                    } else {
                        assert(lines_of(sfx) == seq![sfx]);
                        assert(sfx.subrange(0, j - start) =~= sfx);
                    }
                    assert(first_line_value(lines_of(sfx)) == Some(p@));
                }
                return Some(p);
            },
            None => {
                proof {
                    if j < n {
                        assert(lines_of(sfx) == seq![sfx.subrange(0, j - start)] + lines_of(
                            sfx.subrange(j - start + 1, sfx.len() as int),
                        ));
                        assert(lines_of(sfx)[0] == sfx.subrange(0, j - start));
                        assert(lines_of(sfx).drop_first() =~= lines_of(
                            sfx.subrange(j - start + 1, sfx.len() as int),
                        ));
                        assert(sfx.subrange(j - start + 1, sfx.len() as int) =~= output@.subrange(
                            j + 1,
                            n as int,
                        ));
                    } else {
                        assert(lines_of(sfx) == seq![sfx]);
                        assert(sfx.subrange(0, j - start) =~= sfx);
                        assert(lines_of(sfx).drop_first() =~= Seq::<Seq<char>>::empty());
                        assert(output@.subrange(n as int, n as int) =~= Seq::<char>::empty());
                    }
                }
                if j == n {
                    start = n;
                } else {
                    start = j + 1;
                }
            },
        }
    }
    proof {
        assert(output@.subrange(start as int, n as int).len() == 0);
    }
    None
}

} // verus!
