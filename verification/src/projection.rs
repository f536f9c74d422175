//! Interpretation of the input that an agent handed to a tool: which
//! command and file it names, and how many lines an edit or a write adds and
//! removes.

use vstd::prelude::*;
use crate::text::chars_of;

verus! {

broadcast use vstd::string::group_string_axioms;

/// The fields of a tool input that the interpretation reads, as the JSON
/// object gave them (`old_text`, `new_text` and `file_text` are other names
/// of `old_string`, `new_string` and `content`).
#[derive(Debug, Clone, PartialEq, Eq, Default)]
pub struct ToolInputShape {
    pub command: Option<String>,
    pub cmd: Option<String>,
    pub file_path: Option<String>,
    pub path: Option<String>,
    pub old_string: Option<String>,
    pub new_string: Option<String>,
    pub content: Option<String>,
}

/// What a tool input says.
#[derive(Debug, Clone, PartialEq, Eq, Default)]
pub struct ParsedToolInput {
    pub command: Option<String>,
    pub file_path: Option<String>,
    pub lines_added: u64,
    pub lines_removed: u64,
}

/// The number of line feeds in `s`.
pub open spec fn newline_count(s: Seq<char>) -> int
    decreases s.len(),
{
    if s.len() == 0 {
        0
    } else {
        newline_count(s.drop_last()) + if s.last() == '\n' {
            1int
        } else {
            0int
        }
    }
}

/// A sequence holds at most as many line feeds as characters.
pub proof fn lemma_newline_count_bound(s: Seq<char>)
    ensures
        0 <= newline_count(s) <= s.len(),
    decreases s.len(),
{
    if s.len() > 0 {
        lemma_newline_count_bound(s.drop_last());
    }
}

/// The number of lines of `s` (`str::lines`): one per line feed, and one
/// more for a last line that no line feed ends.
pub open spec fn line_count(s: Seq<char>) -> int {
    if s.len() == 0 {
        0
    } else {
        newline_count(s) + if s.last() == '\n' {
            0int
        } else {
            1int
        }
    }
}

/// The number of lines of `text`.
pub fn count_lines(text: &str) -> (n: u64)
    ensures
        n == line_count(text@),
{
    let chars = chars_of(text);
    let len = chars.len();
    if len == 0 {
        return 0;
    }
    let mut count: usize = 0;
    let mut i: usize = 0;
    while i < len
        invariant
            len == chars@.len(),
            i <= len,
            count <= i,
            count == newline_count(chars@.take(i as int)),
        decreases len - i,
    {
        assert(chars@.take(i + 1).drop_last() =~= chars@.take(i as int));
        if chars[i] == '\n' {
            count = count + 1;
        }
        i = i + 1;
    }
    assert(chars@.take(len as int) =~= chars@);
    proof {
        lemma_newline_count_bound(chars@.drop_last());
    }
    if chars[len - 1] != '\n' {
        count = count + 1;
    }
    count as u64
}

/// `c` with ASCII capitals turned to small letters (`char::to_ascii_lowercase`).
pub open spec fn ascii_lower(c: char) -> char {
    if 'A' <= c <= 'Z' {
        ((c as u32) + 32) as char
    } else {
        c
    }
}

/// Whether `pat` occurs in `s` at some position.
pub open spec fn occurs_in(pat: Seq<char>, s: Seq<char>) -> bool {
    exists|i: int| 0 <= i && i + pat.len() <= s.len() && #[trigger] s.subrange(i, i + pat.len()) == pat
}

/// `s` with ASCII capitals turned to small letters.
pub open spec fn lowered(s: Seq<char>) -> Seq<char> {
    s.map_values(|c: char| ascii_lower(c))
}

/// `text` with ASCII capitals turned to small letters.
fn lowercase_chars(text: &str) -> (v: Vec<char>)
    ensures
        v@ == lowered(text@),
{
    let chars = chars_of(text);
    let mut v: Vec<char> = Vec::new();
    let mut i: usize = 0;
    while i < chars.len()
        invariant
            i <= chars@.len(),
            chars@ == text@,
            v@ == lowered(chars@.take(i as int)),
        decreases chars@.len() - i,
    {
        let c = chars[i];
        let l = if 'A' <= c && c <= 'Z' {
            let u = (c as u32) + 32;
            proof {
                vstd::utf8::char_u32_cast(c, c as u32);
            }
            char_from_ascii(u)
        } else {
            c
        };
        v.push(l);
        assert(v@ =~= lowered(chars@.take(i + 1)));
        i = i + 1;
    }
    assert(chars@.take(chars@.len() as int) =~= chars@);
    v
}

/// The character of the ASCII code `u`.
fn char_from_ascii(u: u32) -> (c: char)
    requires
        u < 128,
    ensures
        c == u as char,
{
    (u as u8) as char
}

/// Whether `pat` occurs in `hay`.
fn contains_chars(hay: &Vec<char>, pat: &Vec<char>) -> (b: bool)
    ensures
        b == occurs_in(pat@, hay@),
{
    if pat.len() == 0 {
        assert(hay@.subrange(0, 0int + pat@.len()) =~= pat@);
        return true;
    }
    let mut i: usize = 0;
    while i <= hay.len() && pat.len() <= hay.len() - i
        invariant
            pat@.len() > 0,
            forall|j: int| 0 <= j < i ==> #[trigger] hay@.subrange(j, j + pat@.len()) != pat@,
        decreases hay@.len() - i,
    {
        let mut k: usize = 0;
        while k < pat.len() && hay[i + k] == pat[k]
            invariant
                i + pat@.len() <= hay@.len(),
                hay@.len() <= usize::MAX,
                k <= pat@.len(),
                forall|t: int| 0 <= t < k ==> hay@[i + t] == pat@[t],
            decreases pat@.len() - k,
        {
            k = k + 1;
        }
        if k == pat.len() {
            assert(hay@.subrange(i as int, i + pat@.len()) =~= pat@);
            return true;
        }
        assert(hay@.subrange(i as int, i + pat@.len())[k as int] != pat@[k as int]);
        i = i + 1;
    }
    assert forall|j: int| 0 <= j && j + pat@.len() <= hay@.len() implies #[trigger] hay@.subrange(
        j,
        j + pat@.len(),
    ) != pat@ by {
        assert(j < i);
    }
    false
}

/// The first of two optional values that is present.
pub open spec fn first_present(a: Option<String>, b: Option<String>) -> Option<String> {
    if a is Some {
        a
    } else {
        b
    }
}

/// The characters of an optional text, the empty sequence where absent.
pub open spec fn text_or_empty(s: Option<String>) -> Seq<char> {
    match s {
        Some(t) => t@,
        None => seq![],
    }
}

/// The number of lines of an optional text, zero where absent.
fn count_optional_lines(s: &Option<String>) -> (n: u64)
    ensures
        n == line_count(text_or_empty(*s)),
{
    match s {
        Some(t) => count_lines(t.as_str()),
        None => 0,
    }
}

/// What the input `shape` of the tool `tool_name` says. The command is
/// `command`, else `cmd`; the file is `file_path`, else `path`. A tool whose
/// name holds `edit` (in any ASCII case) adds the lines of `new_string` and
/// removes those of `old_string`; else one whose name holds `write` adds the
/// lines of `content`; other tools change no lines. No input says nothing.
pub fn tool_input_from_shape(tool_name: &str, shape: Option<ToolInputShape>) -> (input: ParsedToolInput)
    ensures
        match shape {
            None => {
                &&& input.command is None
                &&& input.file_path is None
                &&& input.lines_added == 0
                &&& input.lines_removed == 0
            },
            Some(s) => {
                let tool = lowered(tool_name@);
                &&& input.command == first_present(s.command, s.cmd)
                &&& input.file_path == first_present(s.file_path, s.path)
                &&& if occurs_in(seq!['e', 'd', 'i', 't'], tool) {
                    &&& input.lines_added == line_count(text_or_empty(s.new_string))
                    &&& input.lines_removed == line_count(text_or_empty(s.old_string))
                } else if occurs_in(seq!['w', 'r', 'i', 't', 'e'], tool) {
                    &&& input.lines_added == line_count(text_or_empty(s.content))
                    &&& input.lines_removed == 0
                } else {
                    &&& input.lines_added == 0
                    &&& input.lines_removed == 0
                }
            },
        },
{
    let shape = match shape {
        None => {
            return ParsedToolInput { command: None, file_path: None, lines_added: 0, lines_removed: 0 };
        },
        Some(s) => s,
    };
    let tool = lowercase_chars(tool_name);
    let ToolInputShape { command, cmd, file_path, path, old_string, new_string, content } = shape;
    let command = match command {
        Some(c) => Some(c),
        None => cmd,
    };
    let file_path = match file_path {
        Some(f) => Some(f),
        None => path,
    };
    let edit = vec!['e', 'd', 'i', 't'];
    assert(edit@ =~= seq!['e', 'd', 'i', 't']);
    if contains_chars(&tool, &edit) {
        return ParsedToolInput {
            command,
            file_path,
            lines_added: count_optional_lines(&new_string),
            lines_removed: count_optional_lines(&old_string),
        };
    }
    let write = vec!['w', 'r', 'i', 't', 'e'];
    assert(write@ =~= seq!['w', 'r', 'i', 't', 'e']);
    if contains_chars(&tool, &write) {
        return ParsedToolInput {
            command,
            file_path,
            lines_added: count_optional_lines(&content),
            lines_removed: 0,
        };
    }
    ParsedToolInput { command, file_path, lines_added: 0, lines_removed: 0 }
}


/// A final line feed adds no line: a text that does not end with one has as
/// many lines as the same text with one appended.
pub proof fn law_final_line_feed_adds_no_line(s: Seq<char>)
    requires
        s.len() > 0,
        s.last() != '\n',
    ensures
        line_count(s.push('\n')) == line_count(s),
{
    assert(s.push('\n').drop_last() =~= s);
}

/// A pattern occurs wherever it is placed: at the start, at the end or
/// strictly inside a text.
pub proof fn law_occurs_where_placed(pat: Seq<char>, a: Seq<char>, b: Seq<char>)
    ensures
        occurs_in(pat, a + pat + b),
{
    let s = a + pat + b;
    let i = a.len() as int;
    assert(s.subrange(i, i + pat.len()) =~= pat);
}

/// A pattern occurs only where the text is made of something, then the
/// pattern, then something.
pub proof fn law_occurs_only_where_placed(pat: Seq<char>, s: Seq<char>)
    requires
        occurs_in(pat, s),
    ensures
        exists|i: int|
            0 <= i && i + pat.len() <= s.len() && s == #[trigger] s.take(i) + pat + s.skip(
                i + pat.len(),
            ),
{
    let i = choose|i: int|
        0 <= i && i + pat.len() <= s.len() && #[trigger] s.subrange(i, i + pat.len()) == pat;
    assert(s =~= s.take(i) + s.subrange(i, i + pat.len()) + s.skip(i + pat.len()));
}

/// Turning capitals to small letters works character by character.
pub proof fn law_lowered_of_joined(a: Seq<char>, b: Seq<char>)
    ensures
        lowered(a + b) == lowered(a) + lowered(b),
{
    assert(lowered(a + b) =~= lowered(a) + lowered(b));
}

/// A tool name that holds `edit` or `write`, in any ASCII case and at any
/// place, holds it once its capitals are turned to small letters, which is
/// what `tool_input_from_shape` asks of a name to count lines.
pub proof fn law_tool_name_anywhere(a: Seq<char>, w: Seq<char>, b: Seq<char>)
    ensures
        lowered(w) == seq!['e', 'd', 'i', 't'] ==> occurs_in(
            seq!['e', 'd', 'i', 't'],
            lowered(a + w + b),
        ),
        lowered(w) == seq!['w', 'r', 'i', 't', 'e'] ==> occurs_in(
            seq!['w', 'r', 'i', 't', 'e'],
            lowered(a + w + b),
        ),
{
    law_lowered_of_joined(a + w, b);
    law_lowered_of_joined(a, w);
    law_occurs_where_placed(lowered(w), lowered(a), lowered(b));
}

/// Line feeds are counted one by one: those of two joined texts are those
/// of the first and those of the second.
proof fn lemma_newline_count_joined(a: Seq<char>, b: Seq<char>)
    ensures
        newline_count(a + b) == newline_count(a) + newline_count(b),
    decreases b.len(),
{
    if b.len() == 0 {
        assert(a + b =~= a);
    } else {
        assert((a + b).drop_last() =~= a + b.drop_last());
        lemma_newline_count_joined(a, b.drop_last());
    }
}

/// Lines are counted one by one: a text that is empty or ends with a line
/// feed, followed by another text, has the lines of both.
pub proof fn law_lines_of_joined(a: Seq<char>, b: Seq<char>)
    requires
        a.len() == 0 || a.last() == '\n',
    ensures
        line_count(a + b) == line_count(a) + line_count(b),
{
    lemma_newline_count_joined(a, b);
    if b.len() == 0 {
        assert(a + b =~= a);
    } else {
        assert((a + b).last() == b.last());
    }
    if a.len() == 0 {
        assert(a + b =~= b);
    }
}

/// A non-empty text without a line feed is one line, with or without a
/// line feed after it.
pub proof fn law_one_line(s: Seq<char>)
    requires
        s.len() > 0,
        forall|i: int| 0 <= i < s.len() ==> #[trigger] s[i] != '\n',
    ensures
        line_count(s) == 1,
        line_count(s.push('\n')) == 1,
    decreases s.len(),
{
    assert(newline_count(s) == 0) by {
        lemma_no_newline(s);
    }
    assert(s.push('\n').drop_last() =~= s);
}

proof fn lemma_no_newline(s: Seq<char>)
    requires
        forall|i: int| 0 <= i < s.len() ==> #[trigger] s[i] != '\n',
    ensures
        newline_count(s) == 0,
    decreases s.len(),
{
    if s.len() > 0 {
        assert(s.last() == s[s.len() - 1]);
        assert forall|i: int| 0 <= i < s.drop_last().len() implies #[trigger] s.drop_last()[i]
            != '\n' by {
            assert(s.drop_last()[i] == s[i]);
        }
        lemma_no_newline(s.drop_last());
    }
}

/// Lowering leaves no ASCII capital, turns each capital into its small
/// letter (32 code points on) and keeps every other character, position by
/// position.
pub proof fn law_lowered_by_character(s: Seq<char>)
    ensures
        lowered(s).len() == s.len(),
        forall|i: int| 0 <= i < s.len() ==> !('A' <= #[trigger] lowered(s)[i] <= 'Z'),
        forall|i: int|
            0 <= i < s.len() && 'A' <= #[trigger] s[i] <= 'Z' ==> lowered(s)[i] as u32 == s[i] as u32
                + 32,
        forall|i: int| 0 <= i < s.len() && !('A' <= #[trigger] s[i] <= 'Z') ==> lowered(s)[i] == s[i],
{
    assert forall|i: int| 0 <= i < s.len() implies !('A' <= #[trigger] lowered(s)[i] <= 'Z') by {
        let c = s[i];
        if 'A' <= c <= 'Z' {
            vstd::utf8::char_u32_cast(c, c as u32);
            assert((c as u32) + 32 < 0xD800);
        }
    }
    assert forall|i: int| 0 <= i < s.len() && 'A' <= #[trigger] s[i] <= 'Z' implies lowered(s)[i] as u32
        == s[i] as u32 + 32 by {
        let c = s[i];
        vstd::utf8::char_u32_cast(c, c as u32);
    }
}

} // verus!
