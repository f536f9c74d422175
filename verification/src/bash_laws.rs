//! Laws of command extraction: joining two command lines with `; `.

use vstd::prelude::*;
use crate::bash::{bash_commands, blank_quoted, commands_of, is_quote, segment_bounds, segment_command};
use crate::text::{all_white, is_white, lemma_trim_empty_all_white, lemma_trim_white_prefix, trim};

verus! {

/// The quote that is open after reading `c` while `open` is open.
pub open spec fn quote_step(c: char, open: Option<char>) -> Option<char> {
    match open {
        None => if is_quote(c) {
            Some(c)
        } else {
            None
        },
        Some(q) => if c == q {
            None
        } else {
            Some(q)
        },
    }
}

/// The quote that is open after reading `s` from the state `open`.
pub open spec fn open_after(s: Seq<char>, open: Option<char>) -> Option<char>
    decreases s.len(),
{
    if s.len() == 0 {
        open
    } else {
        open_after(s.drop_first(), quote_step(s[0], open))
    }
}

/// Blanking a joined line blanks the first part, then the second part from
/// the quote state that the first part leaves.
pub proof fn lemma_blank_joined(s: Seq<char>, t: Seq<char>, open: Option<char>)
    ensures
        blank_quoted(s + t, open) == blank_quoted(s, open) + blank_quoted(t, open_after(s, open)),
    decreases s.len(),
{
    if s.len() == 0 {
        assert(s + t =~= t);
        assert(blank_quoted(s, open) + blank_quoted(t, open) =~= blank_quoted(t, open));
    } else {
        let next = quote_step(s[0], open);
        assert((s + t)[0] == s[0]);
        assert((s + t).drop_first() =~= s.drop_first() + t);
        lemma_blank_joined(s.drop_first(), t, next);
        let head: Seq<char> = match open {
            None => if is_quote(s[0]) {
                seq![' ']
            } else {
                seq![s[0]]
            },
            Some(q) => seq![' '],
        };
        assert(blank_quoted(s + t, open) == head + blank_quoted(s.drop_first() + t, next));
        assert(blank_quoted(s, open) == head + blank_quoted(s.drop_first(), next));
        assert(head + (blank_quoted(s.drop_first(), next) + blank_quoted(t, open_after(s, open)))
            =~= (head + blank_quoted(s.drop_first(), next)) + blank_quoted(t, open_after(s, open)));
    }
}

/// Scanning the first part of a joined line, up to the `;` that ends it,
/// finds the programs of that part followed by those after the `;`.
proof fn lemma_scan_first_part(
    cmd: Seq<char>,
    st: Seq<char>,
    a: Seq<char>,
    sa: Seq<char>,
    start: int,
    i: int,
)
    requires
        sa.len() == a.len(),
        st.len() > a.len(),
        cmd.len() >= a.len(),
        st.subrange(0, a.len() as int) == sa,
        st[a.len() as int] == ';',
        cmd.subrange(0, a.len() as int) == a,
        0 <= start <= i <= a.len(),
    ensures
        commands_of(cmd, segment_bounds(st, start, i)) == commands_of(a, segment_bounds(sa, start, i))
            + commands_of(cmd, segment_bounds(st, a.len() + 1int, a.len() + 1int)),
    decreases a.len() - i,
{
    let k = a.len() as int;
    let rest = commands_of(cmd, segment_bounds(st, k + 1, k + 1));
    assert forall|s: int, e: int| 0 <= s <= e <= k implies segment_command(cmd, (s, e))
        == segment_command(a, (s, e)) by {
        assert(cmd.subrange(s, e) =~= a.subrange(s, e)) by {
            assert forall|j: int| 0 <= j < e - s implies cmd.subrange(s, e)[j] == a.subrange(s, e)[j] by {
                assert(cmd.subrange(0, k)[s + j] == cmd[s + j]);
            }
        }
    }
    if i == k {
        let segs = segment_bounds(st, start, i);
        assert(segs == seq![(start, i)] + segment_bounds(st, k + 1, k + 1));
        assert(segs.drop_first() =~= segment_bounds(st, k + 1, k + 1));
        let asegs = segment_bounds(sa, start, i);
        assert(asegs == seq![(start, k)]);
        assert(asegs.drop_first() =~= Seq::<(int, int)>::empty());
        assert(commands_of(a, asegs.drop_first()) == Seq::<Seq<char>>::empty());
        assert(commands_of(a, asegs) =~= segment_command(a, (start, k)));
    } else {
        assert(st[i] == sa[i]) by {
            assert(st.subrange(0, k)[i] == st[i]);
        }
        if i + 1 < k {
            assert(st[i + 1] == sa[i + 1]) by {
                assert(st.subrange(0, k)[i + 1] == st[i + 1]);
            }
        }
        if st[i] == ';' || st[i] == '|' {
            lemma_scan_first_part(cmd, st, a, sa, i + 1, i + 1);
            let tail_st = segment_bounds(st, i + 1, i + 1);
            let tail_sa = segment_bounds(sa, i + 1, i + 1);
            assert((seq![(start, i)] + tail_st).drop_first() =~= tail_st);
            assert((seq![(start, i)] + tail_sa).drop_first() =~= tail_sa);
            assert(segment_command(cmd, (start, i)) + (commands_of(a, tail_sa) + rest) =~= (
            segment_command(a, (start, i)) + commands_of(a, tail_sa)) + rest);
        } else if st[i] == '&' && i + 1 < st.len() && st[i + 1] == '&' {
            assert(i + 1 < k);
            lemma_scan_first_part(cmd, st, a, sa, i + 2, i + 2);
            let tail_st = segment_bounds(st, i + 2, i + 2);
            let tail_sa = segment_bounds(sa, i + 2, i + 2);
            assert((seq![(start, i)] + tail_st).drop_first() =~= tail_st);
            assert((seq![(start, i)] + tail_sa).drop_first() =~= tail_sa);
            assert(segment_command(cmd, (start, i)) + (commands_of(a, tail_sa) + rest) =~= (
            segment_command(a, (start, i)) + commands_of(a, tail_sa)) + rest);
        } else {
            lemma_scan_first_part(cmd, st, a, sa, start, i + 1);
        }
    }
}

/// Scanning the part of a line that follows a prefix of length `off` finds
/// the programs of that part, when the segment being read so far differs
/// only by leading white space.
proof fn lemma_scan_second_part(
    cmd: Seq<char>,
    st: Seq<char>,
    q: Seq<char>,
    sq: Seq<char>,
    off: int,
    w: Seq<char>,
    start: int,
    start2: int,
    i: int,
)
    requires
        cmd.len() == st.len(),
        0 <= off,
        q.len() == sq.len(),
        cmd.len() == off + q.len(),
        cmd.subrange(off, cmd.len() as int) == q,
        st.subrange(off, st.len() as int) == sq,
        off <= i <= st.len(),
        0 <= start <= i,
        0 <= start2 <= i - off,
        all_white(w),
        cmd.subrange(start, i) == w + q.subrange(start2, i - off),
    ensures
        commands_of(cmd, segment_bounds(st, start, i)) == commands_of(
            q,
            segment_bounds(sq, start2, i - off),
        ),
    decreases st.len() - i,
{
    let n = st.len() as int;
    let empty: Seq<char> = seq![];
    assert(all_white(empty));
    assert(segment_command(cmd, (start, i)) == segment_command(q, (start2, i - off))) by {
        lemma_trim_white_prefix(w, q.subrange(start2, i - off));
    }
    if i >= n {
        let segs = segment_bounds(st, start, i);
        let qsegs = segment_bounds(sq, start2, i - off);
        assert(segs.drop_first() =~= Seq::<(int, int)>::empty());
        assert(qsegs.drop_first() =~= Seq::<(int, int)>::empty());
        assert(commands_of(cmd, segs.drop_first()) == Seq::<Seq<char>>::empty());
        assert(commands_of(q, qsegs.drop_first()) == Seq::<Seq<char>>::empty());
        assert(commands_of(cmd, segs) =~= segment_command(cmd, (start, i)));
        assert(commands_of(q, qsegs) =~= segment_command(q, (start2, i - off)));
    } else {
        assert(st[i] == sq[i - off]) by {
            assert(st.subrange(off, n)[i - off] == st[i]);
        }
        if i + 1 < n {
            assert(st[i + 1] == sq[i + 1 - off]) by {
                assert(st.subrange(off, n)[i + 1 - off] == st[i + 1]);
            }
        }
        if st[i] == ';' || st[i] == '|' || (st[i] == '&' && i + 1 < n && st[i + 1] == '&') {
            let step: int = if st[i] == ';' || st[i] == '|' {
                1
            } else {
                2
            };
            assert(cmd.subrange(i + step, i + step) =~= empty + q.subrange(
                i + step - off,
                i + step - off,
            ));
            lemma_scan_second_part(cmd, st, q, sq, off, empty, i + step, i + step - off, i + step);
            let tail_st = segment_bounds(st, i + step, i + step);
            let tail_sq = segment_bounds(sq, i + step - off, i + step - off);
            assert((seq![(start, i)] + tail_st).drop_first() =~= tail_st);
            assert((seq![(start2, i - off)] + tail_sq).drop_first() =~= tail_sq);
        } else {
            assert(cmd.subrange(start, i + 1) =~= w + q.subrange(start2, i + 1 - off)) by {
                assert(cmd[i] == q[i - off]) by {
                    assert(cmd.subrange(off, n)[i - off] == cmd[i]);
                }
                assert(cmd.subrange(start, i + 1) =~= cmd.subrange(start, i).push(cmd[i]));
                assert(q.subrange(start2, i + 1 - off) =~= q.subrange(start2, i - off).push(
                    q[i - off],
                ));
            }
            lemma_scan_second_part(cmd, st, q, sq, off, w, start, start2, i + 1);
        }
    }
}

/// A line that is all white space names no program in any of its segments.
proof fn lemma_white_line_no_programs(a: Seq<char>, sa: Seq<char>, start: int, i: int)
    requires
        all_white(a),
        sa.len() == a.len(),
        0 <= start <= i <= a.len(),
    ensures
        commands_of(a, segment_bounds(sa, start, i)) == Seq::<Seq<char>>::empty(),
    decreases a.len() - i,
{
    let n = a.len() as int;
    assert(segment_command(a, (start, i)) == Seq::<Seq<char>>::empty()) by {
        assert forall|j: int| 0 <= j < a.subrange(start, i).len() implies is_white(
            #[trigger] a.subrange(start, i)[j],
        ) by {
            assert(a.subrange(start, i)[j] == a[start + j]);
        }
        lemma_trim_empty_all_white(a.subrange(start, i));
    }
    if i >= n {
        let segs = segment_bounds(sa, start, i);
        assert(segs.drop_first() =~= Seq::<(int, int)>::empty());
        assert(commands_of(a, segs.drop_first()) == Seq::<Seq<char>>::empty());
        assert(commands_of(a, segs) =~= segment_command(a, (start, i)));
    } else if sa[i] == ';' || sa[i] == '|' {
        lemma_white_line_no_programs(a, sa, i + 1, i + 1);
        assert((seq![(start, i)] + segment_bounds(sa, i + 1, i + 1)).drop_first() =~= segment_bounds(
            sa,
            i + 1,
            i + 1,
        ));
    } else if sa[i] == '&' && i + 1 < n && sa[i + 1] == '&' {
        lemma_white_line_no_programs(a, sa, i + 2, i + 2);
        assert((seq![(start, i)] + segment_bounds(sa, i + 2, i + 2)).drop_first() =~= segment_bounds(
            sa,
            i + 2,
            i + 2,
        ));
    } else {
        lemma_white_line_no_programs(a, sa, start, i + 1);
    }
}

/// The programs of a line, read from its segments.
proof fn lemma_commands_by_segments(a: Seq<char>)
    ensures
        bash_commands(a) == commands_of(a, segment_bounds(blank_quoted(a, None), 0, 0)),
{
    crate::bash::lemma_blank_quoted_len(a, None);
    if trim(a).len() == 0 {
        lemma_trim_empty_all_white(a);
        lemma_white_line_no_programs(a, blank_quoted(a, None), 0, 0);
    }
}

/// Joining two command lines with `; ` joins their lists of programs, when
/// the first line leaves no quote open.
pub proof fn law_commands_of_joined(a: Seq<char>, b: Seq<char>)
    requires
        open_after(a, None) is None,
    ensures
        bash_commands(a + seq![';', ' '] + b) == bash_commands(a) + bash_commands(b),
{
    let k = a.len() as int;
    let tail = seq![';', ' '] + b;
    let cmd = a + tail;
    assert(a + seq![';', ' '] + b =~= cmd);
    let sa = blank_quoted(a, None);
    let sb = blank_quoted(b, None);
    crate::bash::lemma_blank_quoted_len(a, None);
    crate::bash::lemma_blank_quoted_len(b, None);
    lemma_blank_joined(a, tail, None);
    assert(tail.drop_first() =~= seq![' '] + b);
    assert((seq![' '] + b).drop_first() =~= b);
    assert(blank_quoted(tail, None) =~= seq![';', ' '] + sb) by {
        assert(blank_quoted(tail, None) == seq![';'] + blank_quoted(seq![' '] + b, None));
        assert(blank_quoted(seq![' '] + b, None) == seq![' '] + sb);
    }
    let st = blank_quoted(cmd, None);
    assert(st =~= sa + (seq![';', ' '] + sb));
    assert(cmd[k] == ';');
    assert(trim(cmd).len() > 0) by {
        lemma_trim_empty_all_white(cmd);
    }
    assert(st.subrange(0, k) =~= sa);
    assert(cmd.subrange(0, k) =~= a);
    lemma_scan_first_part(cmd, st, a, sa, 0, 0);
    let q = seq![' '] + b;
    let sq = seq![' '] + sb;
    let empty: Seq<char> = seq![];
    assert(all_white(empty));
    assert(cmd.subrange(k + 1, cmd.len() as int) =~= q);
    assert(st.subrange(k + 1, st.len() as int) =~= sq);
    assert(cmd.subrange(k + 1, k + 1) =~= empty + q.subrange(0, 0));
    lemma_scan_second_part(cmd, st, q, sq, k + 1, empty, k + 1, 0, k + 1);
    let space = seq![' '];
    assert(all_white(space)) by {
        assert(is_white(space[0]));
    }
    assert(segment_bounds(sq, 0, 0) == segment_bounds(sq, 0, 1));
    assert(q.subrange(1, q.len() as int) =~= b);
    assert(sq.subrange(1, sq.len() as int) =~= sb);
    assert(q.subrange(0, 1) =~= space + b.subrange(0, 0));
    lemma_scan_second_part(q, sq, b, sb, 1, space, 0, 0, 1);
    lemma_commands_by_segments(a);
    lemma_commands_by_segments(b);
}

} // verus!
