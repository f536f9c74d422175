//! Extraction of the programs that a shell command line runs.

use vstd::prelude::*;
use crate::quoting::{
    blank_bytes, blank_head, blank_wide, lemma_blank_bytes_encode, byte_open_after, is_quote_byte, lemma_blank_bytes_at, lemma_blank_bytes_at_char, lemma_blank_bytes_len,
    lemma_blank_bytes_valid, lemma_blank_step, lemma_encode_scalar_shape, lemma_encode_take_step,
    lemma_first_byte_is, utf8_width,
};
use vstd::utf8::{decode_utf8, encode_utf8, valid_utf8};
use crate::text::{
    chars_of, first_word, is_white, lemma_trimmed_edges, take_word, trim, trim_bounds, trim_start,
    word_end,
};

verus! {

broadcast use vstd::string::group_string_axioms;

/// A character that opens and closes a quoted region.
pub open spec fn is_quote(c: char) -> bool {
    c == '"' || c == '\''
}

/// `s` with every quoted region, quotes included, turned into spaces.
///
/// `open` is the quote character of the region that is open at the start of
/// `s`, if any. A region opened by `'` or `"` runs up to the next occurrence
/// of the same character, or to the end of `s`. Every other character stays.
pub open spec fn blank_quoted(s: Seq<char>, open: Option<char>) -> Seq<char>
    decreases s.len(),
{
    if s.len() == 0 {
        seq![]
    } else {
        let c = s[0];
        let rest = s.drop_first();
        match open {
            None => if is_quote(c) {
                seq![' '] + blank_quoted(rest, Some(c))
            } else {
                seq![c] + blank_quoted(rest, None)
            },
            Some(q) => seq![' '] + blank_quoted(rest, if c == q { None } else { Some(q) }),
        }
    }
}

/// Blanking quoted regions keeps every position in place.
pub proof fn lemma_blank_quoted_len(s: Seq<char>, open: Option<char>)
    ensures
        blank_quoted(s, open).len() == s.len(),
    decreases s.len(),
{
    if s.len() > 0 {
        let c = s[0];
        match open {
            None => lemma_blank_quoted_len(s.drop_first(), if is_quote(c) { Some(c) } else { None }),
            Some(q) => lemma_blank_quoted_len(s.drop_first(), if c == q { None } else { Some(q) }),
        }
    }
}

/// The segments of a command line, as bounds `(start, end)`, given the line
/// with its quoted regions blanked. Segments are separated by `;`, `|` and
/// `&&`; the scan resumes after each separator, and the last segment runs to
/// the end of the line. `start` is where the current segment began and `i`
/// where the scan stands.
pub open spec fn segment_bounds(st: Seq<char>, start: int, i: int) -> Seq<(int, int)>
    decreases st.len() - i,
{
    if i >= st.len() {
        seq![(start, st.len() as int)]
    } else if st[i] == ';' || st[i] == '|' {
        seq![(start, i)] + segment_bounds(st, i + 1, i + 1)
    } else if st[i] == '&' && i + 1 < st.len() && st[i + 1] == '&' {
        seq![(start, i)] + segment_bounds(st, i + 2, i + 2)
    } else {
        segment_bounds(st, start, i + 1)
    }
}

/// Keeps the larger component seen so far: a component that is empty or
/// `.` does not replace the one before it.
pub open spec fn pick_component(cur: Seq<char>, best: Seq<char>) -> Seq<char> {
    if cur.len() == 0 || cur == seq!['.'] {
        best
    } else {
        cur
    }
}

/// Scans `s` for the last `/`-separated component that is neither empty nor
/// `.`; `cur` is the component being read and `best` the last one kept.
pub open spec fn last_component(s: Seq<char>, cur: Seq<char>, best: Seq<char>) -> Seq<char>
    decreases s.len(),
{
    if s.len() == 0 {
        pick_component(cur, best)
    } else if s[0] == '/' {
        last_component(s.drop_first(), seq![], pick_component(cur, best))
    } else {
        last_component(s.drop_first(), cur.push(s[0]), best)
    }
}

/// The final component of a Unix path (`Path::file_name`): its last
/// component that is neither empty nor `.`, or `None` where there is none or
/// where it is `..`.
pub open spec fn file_name(path: Seq<char>) -> Option<Seq<char>> {
    let c = last_component(path, seq![], seq![]);
    if c.len() == 0 || c == seq!['.', '.'] {
        None
    } else {
        Some(c)
    }
}

/// The program named by one segment of a command line: the file name of
/// its first word, unless the segment is blank, the word has no file name,
/// or the program is `cd`. The result holds zero or one name.
pub open spec fn segment_command(cmd: Seq<char>, seg: (int, int)) -> Seq<Seq<char>> {
    let text = trim(cmd.subrange(seg.0, seg.1));
    if text.len() == 0 {
        seq![]
    } else {
        let base = match file_name(first_word(text)) {
            Some(name) => name,
            None => seq![],
        };
        if base.len() == 0 || base == seq!['c', 'd'] {
            seq![]
        } else {
            seq![base]
        }
    }
}

/// The programs named by the given segments of `cmd`, in order.
pub open spec fn commands_of(cmd: Seq<char>, segs: Seq<(int, int)>) -> Seq<Seq<char>>
    decreases segs.len(),
{
    if segs.len() == 0 {
        seq![]
    } else {
        segment_command(cmd, segs[0]) + commands_of(cmd, segs.drop_first())
    }
}

/// The programs that the command line `cmd` runs, in order.
pub open spec fn bash_commands(cmd: Seq<char>) -> Seq<Seq<char>> {
    if trim(cmd).len() == 0 {
        seq![]
    } else {
        commands_of(cmd, segment_bounds(blank_quoted(cmd, None), 0, 0))
    }
}

/// `String::from_utf8`: the string whose UTF-8 encoding is `bytes`, or
/// `None` where `bytes` is not valid UTF-8. Claimed, as std documents it:
/// the result is `Some` exactly for valid UTF-8, and then its characters are
/// those that the bytes decode to.
#[verifier::external_body]
fn string_from_utf8(bytes: Vec<u8>) -> (r: Option<String>)
    ensures
        r is Some <==> valid_utf8(bytes@),
        r matches Some(s) ==> s@ == decode_utf8(bytes@),
{
    match String::from_utf8(bytes) {
        Ok(s) => Some(s),
        Err(_) => None,
    }
}

/// Replaces every byte of each quoted region, quotes included, by a space,
/// keeping every other byte at its position, so that byte positions found in
/// the result are byte positions in `command`. A region opened by `'` or `"`
/// runs up to the next occurrence of the same byte, or to the end; there are
/// no escapes. The result is still UTF-8: quotes are ASCII, and no byte of a
/// character outside ASCII is a quote, so such a character is either kept
/// whole or blanked whole.
pub fn strip_quoted_strings(command: &str) -> (stripped: String)
    ensures
        encode_utf8(stripped@) == blank_bytes(encode_utf8(command@), None),
        encode_utf8(stripped@).len() == encode_utf8(command@).len(),
        forall|i: int|
            0 <= i < encode_utf8(command@).len() ==> #[trigger] encode_utf8(stripped@)[i]
                == blank_head(
                encode_utf8(command@)[i],
                byte_open_after(encode_utf8(command@).take(i), None),
            ),
        stripped@ == blank_wide(command@, None),
{
    let ghost orig = encode_utf8(command@);
    let mut buf = command.as_bytes_vec();
    let len = buf.len();
    let mut index: usize = 0;
    proof {
        lemma_blank_bytes_len(orig, None);
        lemma_blank_bytes_valid(command@);
        assert(orig.skip(0) =~= orig);
        assert(buf@.take(0) =~= Seq::<u8>::empty());
        assert(Seq::<u8>::empty() + blank_bytes(orig, None) =~= blank_bytes(orig, None));
    }
    while index < len
        invariant
            len == buf@.len() == orig.len(),
            index <= len,
            forall|k: int| index <= k < len ==> #[trigger] buf@[k] == orig[k],
            buf@.take(index as int) + blank_bytes(orig.skip(index as int), None) == blank_bytes(
                orig,
                None,
            ),
        decreases len - index,
    {
        let ch = buf[index];
        let ghost first = index;
        assert(orig.skip(index as int)[0] == ch);
        if ch == 34u8 || ch == 39u8 {
            let quote = ch;
            proof {
                lemma_blank_step(orig, index as int, None);
            }
            let ghost before = buf@;
            buf.set(index, 32u8);
            assert(buf@.take(index + 1) =~= before.take(index as int).push(32u8));
            index = index + 1;
            while index < len && buf[index] != quote
                invariant
                    len == buf@.len() == orig.len(),
                    first < index <= len,
                    is_quote_byte(quote),
                    forall|k: int| index <= k < len ==> #[trigger] buf@[k] == orig[k],
                    buf@.take(index as int) + blank_bytes(orig.skip(index as int), Some(quote))
                        == blank_bytes(orig, None),
                decreases len - index,
            {
                assert(orig.skip(index as int)[0] == buf@[index as int]);
                proof {
                    lemma_blank_step(orig, index as int, Some(quote));
                }
                let ghost before = buf@;
                buf.set(index, 32u8);
                assert(buf@.take(index + 1) =~= before.take(index as int).push(32u8));
                index = index + 1;
            }
            if index < len {
                assert(orig.skip(index as int)[0] == buf@[index as int]);
                proof {
                    lemma_blank_step(orig, index as int, Some(quote));
                }
                let ghost before = buf@;
                buf.set(index, 32u8);
                assert(buf@.take(index + 1) =~= before.take(index as int).push(32u8));
                index = index + 1;
            } else {
                assert(orig.skip(index as int) =~= Seq::<u8>::empty());
                assert(blank_bytes(orig.skip(index as int), Some(quote)) =~= blank_bytes(
                    orig.skip(index as int),
                    None,
                ));
            }
            continue;
        }
        proof {
            lemma_blank_step(orig, index as int, None);
        }
        assert(buf@.take(index + 1) =~= buf@.take(index as int).push(ch));
        index = index + 1;
    }
    assert(buf@.take(len as int) =~= buf@);
    assert(orig.skip(len as int) =~= Seq::<u8>::empty());
    assert(buf@ + Seq::<u8>::empty() =~= buf@);
    proof {
        assert forall|i: int| 0 <= i < orig.len() implies #[trigger] buf@[i] == blank_head(
            orig[i],
            byte_open_after(orig.take(i), None),
        ) by {
            lemma_blank_bytes_at(orig, i);
        }
    }
    let ghost blanked = buf@;
    match string_from_utf8(buf) {
        Some(s) => {
            proof {
                vstd::utf8::decode_utf8_encode_utf8(blanked);
                lemma_blank_bytes_encode(command@, None);
                vstd::utf8::encode_utf8_decode_utf8(blank_wide(command@, None));
            }
            s
        },
        None => {
            proof {
                assert(false);
            }
            String::new()
        },
    }
}

/// Bounds of the file name of the path `v[a..c]`, or `None` where the path
/// has none.
fn file_name_bounds(v: &Vec<char>, a: usize, c: usize) -> (r: Option<(usize, usize)>)
    requires
        a <= c <= v@.len(),
    ensures
        match r {
            Some((x, y)) => a <= x <= y <= c && file_name(v@.subrange(a as int, c as int)) == Some(
                v@.subrange(x as int, y as int),
            ),
            None => file_name(v@.subrange(a as int, c as int)) is None,
        },
{
    let ghost path = v@.subrange(a as int, c as int);
    let mut cur: usize = a;
    let mut best_start: usize = a;
    let mut best_end: usize = a;
    let mut k: usize = a;
    assert(v@.subrange(a as int, a as int) =~= Seq::<char>::empty());
    assert(v@.subrange(a as int, c as int) =~= path);
    while k < c
        invariant
            a <= cur <= k <= c <= v@.len(),
            a <= best_start <= best_end <= k,
            path == v@.subrange(a as int, c as int),
            last_component(path, seq![], seq![]) == last_component(
                v@.subrange(k as int, c as int),
                v@.subrange(cur as int, k as int),
                v@.subrange(best_start as int, best_end as int),
            ),
        decreases c - k,
    {
        let ghost s = v@.subrange(k as int, c as int);
        assert(s.drop_first() =~= v@.subrange(k + 1, c as int));
        assert(s[0] == v@[k as int]);
        if v[k] == '/' {
            let is_dot = k - cur == 1 && v[cur] == '.';
            let ghost cur_seq = v@.subrange(cur as int, k as int);
            let ghost best_seq = v@.subrange(best_start as int, best_end as int);
            proof {
                if is_dot {
                    assert(cur_seq =~= seq!['.']);
                }
                if cur_seq == seq!['.'] {
                    assert(cur_seq.len() == 1);
                    assert(cur_seq[0] == v@[cur as int]);
                }
            }
            if !(k == cur || is_dot) {
                best_start = cur;
                best_end = k;
            }
            assert(v@.subrange(best_start as int, best_end as int) == pick_component(
                cur_seq,
                best_seq,
            ));
            assert(v@.subrange(k + 1, k + 1) =~= Seq::<char>::empty());
            cur = k + 1;
        } else {
            assert(v@.subrange(cur as int, k as int).push(v@[k as int]) =~= v@.subrange(
                cur as int,
                k + 1,
            ));
        }
        k = k + 1;
    }
    assert(v@.subrange(c as int, c as int) =~= Seq::<char>::empty());
    let ghost cur_seq = v@.subrange(cur as int, c as int);
    let ghost best_seq = v@.subrange(best_start as int, best_end as int);
    proof {
        if c - cur == 1 && v@[cur as int] == '.' {
            assert(cur_seq =~= seq!['.']);
        }
        if cur_seq == seq!['.'] {
            assert(cur_seq.len() == 1);
            assert(cur_seq[0] == v@[cur as int]);
        }
    }
    if !(c == cur || (c - cur == 1 && v[cur] == '.')) {
        best_start = cur;
        best_end = c;
    }
    let ghost name = v@.subrange(best_start as int, best_end as int);
    proof {
        if best_end - best_start == 2 && v@[best_start as int] == '.' && v@[best_start + 1] == '.' {
            assert(name =~= seq!['.', '.']);
        }
        if name == seq!['.', '.'] {
            assert(name.len() == 2);
            assert(name[0] == v@[best_start as int] && name[1] == v@[best_start + 1]);
        }
    }
    if best_start == best_end || (best_end - best_start == 2 && v[best_start] == '.' && v[
    best_start + 1] == '.') {
        None
    } else {
        Some((best_start, best_end))
    }
}

/// The program named by the segment `command[start..end]`, if any.
fn segment_program(command: &str, chars: &Vec<char>, start: usize, end: usize) -> (r: Option<
    String,
>)
    requires
        chars@ == command@,
        start <= end <= chars@.len(),
    ensures
        match r {
            Some(name) => segment_command(command@, (start as int, end as int)) == seq![name@],
            None => segment_command(command@, (start as int, end as int)) == Seq::<
                Seq<char>,
            >::empty(),
        },
{
    let (a, b) = trim_bounds(chars, start, end);
    if a == b {
        return None;
    }
    let ghost text = chars@.subrange(a as int, b as int);
    assert(!is_white(text[0])) by {
        assert(trim(chars@.subrange(start as int, end as int)) == text);
        lemma_trimmed_edges(chars@.subrange(start as int, end as int));
    }
    assert(trim_start(text) == text);
    let c = word_end(chars, a, b);
    assert(first_word(text) == chars@.subrange(a as int, c as int));
    match file_name_bounds(chars, a, c) {
        None => None,
        Some((x, y)) => {
            let ghost base = chars@.subrange(x as int, y as int);
            proof {
                if y - x == 2 && chars@[x as int] == 'c' && chars@[x + 1] == 'd' {
                    assert(base =~= seq!['c', 'd']);
                }
                if base == seq!['c', 'd'] {
                    assert(base.len() == 2);
                    assert(base[0] == chars@[x as int] && base[1] == chars@[x + 1]);
                }
            }
            if x == y || (y - x == 2 && chars[x] == 'c' && chars[x + 1] == 'd') {
                None
            } else {
                let name = command.substring_char(x, y).to_string();
                Some(name)
            }
        },
    }
}

/// The programs that a shell command line runs, in order: the file name of
/// the first word of each segment, where segments are separated by `;`, `|`
/// and `&&` outside quotes. Blank segments, words without a file name and
/// `cd` are left out.
pub fn extract_bash_commands(command: &str) -> (commands: Vec<String>)
    ensures
        commands.deep_view() == bash_commands(command@),
{
    let chars = chars_of(command);
    let len = chars.len();
    let (lo, hi) = trim_bounds(&chars, 0, len);
    assert(chars@.subrange(0, len as int) =~= chars@);
    if lo == hi {
        let none: Vec<String> = Vec::new();
        assert(none.deep_view() =~= Seq::<Seq<char>>::empty());
        return none;
    }
    let stripped = strip_quoted_strings(command);
    let bytes = stripped.as_str().as_bytes();
    let ghost st = blank_quoted(command@, None);
    let ghost all = segment_bounds(st, 0, 0);
    proof {
        lemma_blank_quoted_len(command@, None);
        law_blanking_only_writes_spaces(command@, None);
    }
    let slen = bytes.len();
    let mut commands: Vec<String> = Vec::new();
    let mut start: usize = 0;
    let mut index: usize = 0;
    let mut boff: usize = 0;
    assert(chars@.take(0) =~= Seq::<char>::empty());
    assert(commands.deep_view() =~= Seq::<Seq<char>>::empty());
    assert(commands.deep_view() + commands_of(command@, all) =~= commands_of(command@, all));
    while index < len
        invariant
            len == chars@.len() == st.len(),
            chars@ == command@,
            st == blank_quoted(command@, None),
            forall|i: int| 0 <= i < len ==> #[trigger] st[i] == command@[i] || st[i] == ' ',
            bytes@ == blank_bytes(encode_utf8(chars@), None),
            slen == bytes@.len() == encode_utf8(chars@).len(),
            boff == encode_utf8(chars@.take(index as int)).len(),
            all == segment_bounds(st, 0, 0),
            start <= index <= len,
            commands.deep_view() + commands_of(command@, segment_bounds(st, start as int, index as int))
                == commands_of(command@, all),
        decreases len - index,
    {
        proof {
            lemma_blank_bytes_at_char(chars@, None, index as int);
            lemma_first_byte_is(st[index as int], ';', 59u8);
            lemma_first_byte_is(st[index as int], '|', 124u8);
            lemma_first_byte_is(st[index as int], '&', 38u8);
            lemma_encode_take_step(chars@, index as int);
        }
        let byte = bytes[boff];
        let single = byte == 59u8 || byte == 124u8;
        let mut double = false;
        if !single && byte == 38u8 && index + 1 < len {
            proof {
                assert(chars@[index as int] == '&');
                lemma_encode_scalar_shape('&');
                lemma_blank_bytes_at_char(chars@, None, index + 1);
                lemma_first_byte_is(st[index + 1], '&', 38u8);
                assert(boff + 1 == encode_utf8(chars@.take(index + 1)).len());
            }
            double = bytes[boff + 1] == 38u8;
        }
        if single || double {
            let step: usize = if single {
                1
            } else {
                2
            };
            proof {
                lemma_encode_scalar_shape(chars@[index as int]);
                if double {
                    lemma_encode_take_step(chars@, index + 1);
                    lemma_encode_scalar_shape(chars@[index + 1]);
                }
            }
            let ghost rest = segment_bounds(st, (index + step) as int, (index + step) as int);
            let ghost segs = segment_bounds(st, start as int, index as int);
            assert(segs == seq![(start as int, index as int)] + rest);
            assert(segs.drop_first() =~= rest);
            assert(segs[0] == (start as int, index as int));
            let ghost before = commands.deep_view();
            match segment_program(command, &chars, start, index) {
                Some(name) => {
                    commands.push(name);
                    assert(commands.deep_view() =~= before.push(name@));
                    assert(commands.deep_view() + commands_of(command@, rest) =~= before + (
                    seq![name@] + commands_of(command@, rest)));
                },
                None => {
                    assert(before + commands_of(command@, rest) =~= before + (Seq::<
                        Seq<char>,
                    >::empty() + commands_of(command@, rest)));
                },
            }
            index = index + step;
            boff = boff + step;
            start = index;
        } else {
            let width = utf8_width(chars[index]);
            assert(boff + width == encode_utf8(chars@.take(index + 1)).len());
            boff = boff + width;
            index = index + 1;
        }
    }
    let ghost segs = segment_bounds(st, start as int, index as int);
    assert(segs == seq![(start as int, len as int)]);
    assert(segs.drop_first() =~= Seq::<(int, int)>::empty());
    let ghost before = commands.deep_view();
    match segment_program(command, &chars, start, len) {
        Some(name) => {
            commands.push(name);
            assert(commands.deep_view() =~= before.push(name@));
            assert(before + (seq![name@] + Seq::<Seq<char>>::empty()) =~= before.push(name@));
        },
        None => {
            assert(before + (Seq::<Seq<char>>::empty() + Seq::<Seq<char>>::empty()) =~= before);
        },
    }
    assert(commands_of(command@, segs.drop_first()) == Seq::<Seq<char>>::empty());
    assert(commands.deep_view() == commands_of(command@, all));
    assert(trim(command@).len() > 0);
    assert(all == segment_bounds(blank_quoted(command@, None), 0, 0));
    commands
}


/// Whether `s` holds no `/`.
pub open spec fn slash_free(s: Seq<char>) -> bool {
    forall|i: int| 0 <= i < s.len() ==> #[trigger] s[i] != '/'
}

proof fn lemma_last_component_slash_free(s: Seq<char>, cur: Seq<char>, best: Seq<char>)
    requires
        slash_free(cur),
        slash_free(best),
    ensures
        slash_free(last_component(s, cur, best)),
    decreases s.len(),
{
    if s.len() > 0 {
        if s[0] == '/' {
            lemma_last_component_slash_free(s.drop_first(), seq![], pick_component(cur, best));
        } else {
            assert(slash_free(cur.push(s[0])));
            lemma_last_component_slash_free(s.drop_first(), cur.push(s[0]), best);
        }
    }
}

/// Whether `name` can stand in the list of programs: a non-empty file name,
/// neither `.` nor `..`, holding no `/`, and not `cd`.
pub open spec fn is_program_name(name: Seq<char>) -> bool {
    &&& name.len() > 0
    &&& slash_free(name)
    &&& name != seq!['.']
    &&& name != seq!['.', '.']
    &&& name != seq!['c', 'd']
}

proof fn lemma_last_component_not_dot(s: Seq<char>, cur: Seq<char>, best: Seq<char>)
    requires
        best != seq!['.'],
    ensures
        last_component(s, cur, best) != seq!['.'],
    decreases s.len(),
{
    if s.len() > 0 {
        if s[0] == '/' {
            lemma_last_component_not_dot(s.drop_first(), seq![], pick_component(cur, best));
        } else {
            lemma_last_component_not_dot(s.drop_first(), cur.push(s[0]), best);
        }
    }
}

proof fn lemma_segment_command_names(cmd: Seq<char>, seg: (int, int))
    ensures
        forall|i: int|
            0 <= i < segment_command(cmd, seg).len() ==> is_program_name(
                #[trigger] segment_command(cmd, seg)[i],
            ),
{
    let text = trim(cmd.subrange(seg.0, seg.1));
    let word = first_word(text);
    let empty: Seq<char> = seq![];
    assert(slash_free(empty));
    lemma_last_component_slash_free(word, empty, empty);
    assert(empty != seq!['.']) by {
        assert(seq!['.'].len() == 1);
    }
    lemma_last_component_not_dot(word, empty, empty);
}

proof fn lemma_commands_of_names(cmd: Seq<char>, segs: Seq<(int, int)>)
    ensures
        forall|i: int|
            0 <= i < commands_of(cmd, segs).len() ==> is_program_name(
                #[trigger] commands_of(cmd, segs)[i],
            ),
    decreases segs.len(),
{
    if segs.len() > 0 {
        lemma_segment_command_names(cmd, segs[0]);
        lemma_commands_of_names(cmd, segs.drop_first());
        let head = segment_command(cmd, segs[0]);
        let tail = commands_of(cmd, segs.drop_first());
        assert forall|i: int| 0 <= i < commands_of(cmd, segs).len() implies is_program_name(
            #[trigger] commands_of(cmd, segs)[i],
        ) by {
            if i < head.len() {
                assert(commands_of(cmd, segs)[i] == head[i]);
            } else {
                assert(commands_of(cmd, segs)[i] == tail[i - head.len()]);
            }
        }
    }
}

/// Every program that a command line names is a non-empty file name that
/// holds no `/`, is neither `.` nor `..`, and is not `cd`.
pub proof fn law_commands_are_program_names(cmd: Seq<char>)
    ensures
        forall|i: int|
            0 <= i < bash_commands(cmd).len() ==> is_program_name(#[trigger] bash_commands(cmd)[i]),
{
    lemma_commands_of_names(cmd, segment_bounds(blank_quoted(cmd, None), 0, 0));
}

/// Blanking quoted regions changes characters only into spaces: at every
/// position the blanked line holds the original character or a space.
pub proof fn law_blanking_only_writes_spaces(s: Seq<char>, open: Option<char>)
    ensures
        blank_quoted(s, open).len() == s.len(),
        forall|i: int|
            0 <= i < s.len() ==> #[trigger] blank_quoted(s, open)[i] == s[i] || blank_quoted(
                s,
                open,
            )[i] == ' ',
    decreases s.len(),
{
    lemma_blank_quoted_len(s, open);
    if s.len() > 0 {
        let c = s[0];
        let next = match open {
            None => if is_quote(c) { Some(c) } else { None },
            Some(q) => if c == q { None } else { Some(q) },
        };
        law_blanking_only_writes_spaces(s.drop_first(), next);
        assert forall|i: int| 0 < i < s.len() implies #[trigger] blank_quoted(s, open)[i] == s[i]
            || blank_quoted(s, open)[i] == ' ' by {
            assert(blank_quoted(s, open)[i] == blank_quoted(s.drop_first(), next)[i - 1]);
            assert(s.drop_first()[i - 1] == s[i]);
        }
    }
}

/// A command line without quote characters is left as it is by blanking.
pub proof fn law_unquoted_line_unchanged(s: Seq<char>)
    requires
        forall|i: int| 0 <= i < s.len() ==> !is_quote(#[trigger] s[i]),
    ensures
        blank_quoted(s, None) == s,
    decreases s.len(),
{
    if s.len() > 0 {
        assert forall|i: int| 0 <= i < s.drop_first().len() implies !is_quote(
            #[trigger] s.drop_first()[i],
        ) by {
            assert(s.drop_first()[i] == s[i + 1]);
        }
        law_unquoted_line_unchanged(s.drop_first());
        assert(!is_quote(s[0]));
        assert(seq![s[0]] + s.drop_first() =~= s);
    }
}

/// A blanked line holds no quote character.
pub proof fn lemma_blanked_has_no_quote(s: Seq<char>, open: Option<char>)
    ensures
        forall|i: int| 0 <= i < s.len() ==> !is_quote(#[trigger] blank_quoted(s, open)[i]),
    decreases s.len(),
{
    lemma_blank_quoted_len(s, open);
    if s.len() > 0 {
        let c = s[0];
        let next = match open {
            None => if is_quote(c) { Some(c) } else { None },
            Some(q) => if c == q { None } else { Some(q) },
        };
        lemma_blanked_has_no_quote(s.drop_first(), next);
        assert forall|i: int| 0 < i < s.len() implies !is_quote(#[trigger] blank_quoted(s, open)[i]) by {
            assert(blank_quoted(s, open)[i] == blank_quoted(s.drop_first(), next)[i - 1]);
        }
    }
}

/// Blanking quoted regions twice is blanking them once.
pub proof fn law_blanking_idempotent(s: Seq<char>)
    ensures
        blank_quoted(blank_quoted(s, None), None) == blank_quoted(s, None),
{
    lemma_blank_quoted_len(s, None);
    lemma_blanked_has_no_quote(s, None);
    law_unquoted_line_unchanged(blank_quoted(s, None));
}

/// Whether `s` holds no white space.
pub open spec fn white_free(s: Seq<char>) -> bool {
    forall|i: int| 0 <= i < s.len() ==> !is_white(#[trigger] s[i])
}

proof fn lemma_take_word_white_free(s: Seq<char>)
    ensures
        white_free(take_word(s)),
    decreases s.len(),
{
    if s.len() > 0 && !is_white(s[0]) {
        lemma_take_word_white_free(s.drop_first());
        let rest = take_word(s.drop_first());
        assert forall|i: int| 0 <= i < take_word(s).len() implies !is_white(#[trigger] take_word(s)[i]) by {
            if i > 0 {
                assert(take_word(s)[i] == rest[i - 1]);
            }
        }
    }
}

proof fn lemma_last_component_white_free(s: Seq<char>, cur: Seq<char>, best: Seq<char>)
    requires
        white_free(s),
        white_free(cur),
        white_free(best),
    ensures
        white_free(last_component(s, cur, best)),
    decreases s.len(),
{
    if s.len() > 0 {
        assert forall|i: int| 0 <= i < s.drop_first().len() implies !is_white(
            #[trigger] s.drop_first()[i],
        ) by {
            assert(s.drop_first()[i] == s[i + 1]);
        }
        if s[0] == '/' {
            lemma_last_component_white_free(s.drop_first(), seq![], pick_component(cur, best));
        } else {
            assert(white_free(cur.push(s[0])));
            lemma_last_component_white_free(s.drop_first(), cur.push(s[0]), best);
        }
    }
}

proof fn lemma_segment_command_white_free(cmd: Seq<char>, seg: (int, int))
    ensures
        forall|i: int|
            0 <= i < segment_command(cmd, seg).len() ==> white_free(
                #[trigger] segment_command(cmd, seg)[i],
            ),
{
    let text = trim(cmd.subrange(seg.0, seg.1));
    let word = first_word(text);
    let empty: Seq<char> = seq![];
    lemma_take_word_white_free(trim_start(text));
    lemma_last_component_white_free(word, empty, empty);
}

proof fn lemma_commands_of_white_free(cmd: Seq<char>, segs: Seq<(int, int)>)
    ensures
        forall|i: int|
            0 <= i < commands_of(cmd, segs).len() ==> white_free(#[trigger] commands_of(cmd, segs)[i]),
    decreases segs.len(),
{
    if segs.len() > 0 {
        lemma_segment_command_white_free(cmd, segs[0]);
        lemma_commands_of_white_free(cmd, segs.drop_first());
        let head = segment_command(cmd, segs[0]);
        let tail = commands_of(cmd, segs.drop_first());
        assert forall|i: int| 0 <= i < commands_of(cmd, segs).len() implies white_free(
            #[trigger] commands_of(cmd, segs)[i],
        ) by {
            if i < head.len() {
                assert(commands_of(cmd, segs)[i] == head[i]);
            } else {
                assert(commands_of(cmd, segs)[i] == tail[i - head.len()]);
            }
        }
    }
}

/// No program that a command line names holds white space.
pub proof fn law_commands_hold_no_white_space(cmd: Seq<char>)
    ensures
        forall|i: int| 0 <= i < bash_commands(cmd).len() ==> white_free(#[trigger] bash_commands(cmd)[i]),
{
    lemma_commands_of_white_free(cmd, segment_bounds(blank_quoted(cmd, None), 0, 0));
}
} // verus!
