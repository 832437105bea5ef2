//! Line-level passes over description text: trimming, joining lines, and
//! fencing of shell commands that stand in a description without a fence.
use vstd::prelude::*;
use crate::sanitize::is_white;
use crate::text::{
    chars_of, contains_text, has_prefix, matches_at, occurs_in, pieces_view, push_all,
    split_chars, split_on, starts_with_text, sub_chars,
};

verus! {

/// The characters that `char::is_whitespace` accepts.
pub open spec fn is_space(c: char) -> bool {
    c == '\n' || is_white(c)
}

pub open spec fn trim_start(s: Seq<char>) -> Seq<char>
    decreases s.len(),
{
    if s.len() > 0 && is_space(s[0]) {
        trim_start(s.drop_first())
    } else {
        s
    }
}

pub open spec fn trim_end(s: Seq<char>) -> Seq<char>
    decreases s.len(),
{
    if s.len() > 0 && is_space(s.last()) {
        trim_end(s.drop_last())
    } else {
        s
    }
}

pub open spec fn trim(s: Seq<char>) -> Seq<char> {
    trim_end(trim_start(s))
}

/// The lines joined with newlines: the inverse of splitting on newlines.
pub open spec fn join_lines(lines: Seq<Seq<char>>) -> Seq<char>
    decreases lines.len(),
{
    if lines.len() == 0 {
        Seq::empty()
    } else if lines.len() == 1 {
        lines[0]
    } else {
        join_lines(lines.drop_last()) + seq!['\n'] + lines.last()
    }
}

/// A line that holds only a fence of three backticks, followed by a line
/// that starts a `kubectl` command, is labelled `text`.
pub open spec fn label_command_fences(lines: Seq<Seq<char>>) -> Seq<Seq<char>> {
    Seq::new(
        lines.len(),
        |i: int|
            if trim(lines[i]) == "```"@ && i + 1 < lines.len() && has_prefix(
                trim_start(lines[i + 1]),
                "kubectl"@,
            ) {
                "```text"@
            } else {
                lines[i]
            },
    )
}

/// The command that descriptions show indented, without a fence.
pub open spec fn docr_command() -> Seq<char> {
    "kubectl create secret generic docr"@
}

/// An indented line that starts the command.
pub open spec fn opens_command(line: Seq<char>) -> bool {
    has_prefix(trim_start(line), docr_command()) && has_prefix(line, "    "@)
}

/// A blank line, or a deeper-indented line with one of the command's options.
pub open spec fn continues_command(line: Seq<char>) -> bool {
    trim(line).len() == 0 || (has_prefix(line, "      "@) && (occurs_in(line, "--from-file"@)
        || occurs_in(line, "--type"@)))
}

/// A line that is not blank and does not continue on the next.
pub open spec fn ends_command(line: Seq<char>) -> bool {
    trim(line).len() > 0 && trim(line).last() != '\\'
}

pub open spec fn fenced(block: Seq<Seq<char>>) -> Seq<Seq<char>> {
    seq!["```text"@] + block + seq!["```"@]
}

/// The lines written so far, whether a command is being collected, its
/// lines, and whether a code fence is open.
pub type WrapState = (Seq<Seq<char>>, bool, Seq<Seq<char>>, bool);

/// A line that opens or closes a code fence.
pub open spec fn is_fence_line(line: Seq<char>) -> bool {
    has_prefix(trim_start(line), "```"@)
}

/// One line of the wrapping: a command that starts outside an open fence
/// begins a block, after the lines of any block being collected are written
/// fenced; a line that continues the block joins it, and one that ends it
/// writes the block fenced; any other line ends the block and is written
/// after it. Each fence line opens or closes a fence in turn.
pub open spec fn wrap_step(st: WrapState, line: Seq<char>) -> WrapState {
    let (out, in_block, block, open) = st;
    let open2 = if is_fence_line(line) {
        !open
    } else {
        open
    };
    if opens_command(line) && !open {
        let flushed = if block.len() > 0 {
            out + fenced(block)
        } else {
            out
        };
        (flushed, true, seq![line], open)
    } else if in_block {
        if continues_command(line) {
            if ends_command(line) {
                (out + fenced(block.push(line)), false, Seq::empty(), open2)
            } else {
                (out, true, block.push(line), open2)
            }
        } else {
            let flushed = if block.len() > 0 {
                out + fenced(block)
            } else {
                out
            };
            (flushed.push(line), false, Seq::empty(), open2)
        }
    } else {
        (out.push(line), in_block, block, open2)
    }
}

pub open spec fn wrap_from(lines: Seq<Seq<char>>, st: WrapState) -> WrapState
    decreases lines.len(),
{
    if lines.len() == 0 {
        st
    } else {
        wrap_from(lines.drop_first(), wrap_step(st, lines[0]))
    }
}

/// The lines with each indented command put in a `text` fence.
pub open spec fn wrap_commands(lines: Seq<Seq<char>>) -> Seq<Seq<char>> {
    let st = wrap_from(lines, (Seq::empty(), false, Seq::empty(), false));
    if st.2.len() > 0 {
        st.0 + fenced(st.2)
    } else {
        st.0
    }
}

pub fn is_space_char(c: char) -> (r: bool)
    ensures
        r == is_space(c),
{
    let u = c as u32;
    c == '\n' || u == 0x09 || u == 0x0B || u == 0x0C || u == 0x0D || u == 0x20 || u == 0x85 || u
        == 0xA0 || u == 0x1680 || (0x2000 <= u && u <= 0x200A) || u == 0x2028 || u == 0x2029
        || u == 0x202F || u == 0x205F || u == 0x3000
}

pub fn trimmed_start(s: &[char]) -> (r: Vec<char>)
    ensures
        r@ == trim_start(s@),
{
    let mut i: usize = 0;
    assert(s@.subrange(0, s.len() as int) == s@);
    while i < s.len() && is_space_char(s[i])
        invariant
            i <= s.len(),
            trim_start(s@) == trim_start(s@.subrange(i as int, s.len() as int)),
        decreases s.len() - i,
    {
        assert(s@.subrange(i as int, s.len() as int).drop_first() == s@.subrange(
            i + 1,
            s.len() as int,
        ));
        i += 1;
    }
    sub_chars(s, i, s.len())
}

pub fn trimmed_end(s: &[char]) -> (r: Vec<char>)
    ensures
        r@ == trim_end(s@),
{
    let mut j: usize = s.len();
    assert(s@.subrange(0, s.len() as int) == s@);
    while j > 0 && is_space_char(s[j - 1])
        invariant
            j <= s.len(),
            trim_end(s@) == trim_end(s@.subrange(0, j as int)),
        decreases j,
    {
        assert(s@.subrange(0, j as int).drop_last() == s@.subrange(0, j - 1));
        j -= 1;
    }
    sub_chars(s, 0, j)
}

pub fn trimmed(s: &[char]) -> (r: Vec<char>)
    ensures
        r@ == trim(s@),
{
    let t = trimmed_start(s);
    trimmed_end(&t)
}

pub fn join_with_newlines(lines: &Vec<Vec<char>>) -> (r: Vec<char>)
    ensures
        r@ == join_lines(pieces_view(lines@)),
{
    let ghost lv = pieces_view(lines@);
    if lines.len() == 0 {
        return Vec::new();
    }
    let mut out: Vec<char> = Vec::new();
    push_all(&mut out, &lines[0]);
    assert(lv.subrange(0, 1).len() == 1);
    assert(out@ == join_lines(lv.subrange(0, 1))) by {
        assert(lv.subrange(0, 1)[0] == lines@[0]@);
        assert(out@ =~= lines@[0]@);
    }
    let mut i: usize = 1;
    while i < lines.len()
        invariant
            1 <= i <= lines.len(),
            lv == pieces_view(lines@),
            out@ == join_lines(lv.subrange(0, i as int)),
        decreases lines.len() - i,
    {
        let ghost before = out@;
        out.push('\n');
        push_all(&mut out, &lines[i]);
        assert(lv.subrange(0, i + 1).drop_last() =~= lv.subrange(0, i as int));
        assert(lv.subrange(0, i + 1).last() == lines@[i as int]@);
        assert(out@ =~= before + seq!['\n'] + lines@[i as int]@);
        i += 1;
    }
    assert(lv.subrange(0, i as int) =~= lv);
    out
}

fn lines_of(s: &[char]) -> (r: Vec<Vec<char>>)
    ensures
        pieces_view(r@) == split_on(s@, '\n'),
{
    split_chars(s, '\n')
}

fn copy_chars(s: &Vec<char>) -> (r: Vec<char>)
    ensures
        r@ == s@,
{
    sub_chars(s, 0, s.len())
}

/// Labels the fences that open a `kubectl` command, line by line.
pub fn label_command_fence_lines(s: &[char]) -> (r: Vec<char>)
    ensures
        r@ == join_lines(label_command_fences(split_on(s@, '\n'))),
{
    let lines = lines_of(s);
    let ghost lv = pieces_view(lines@);
    let fence = chars_of("```");
    let kubectl = chars_of("kubectl");
    let mut out: Vec<Vec<char>> = Vec::new();
    let mut i: usize = 0;
    while i < lines.len()
        invariant
            i <= lines.len(),
            lv == pieces_view(lines@),
            fence@ == "```"@,
            kubectl@ == "kubectl"@,
            out.len() == i,
            forall|k: int| 0 <= k < i ==> #[trigger] out@[k]@ == label_command_fences(lv)[k],
        decreases lines.len() - i,
    {
        let bare = trimmed(&lines[i]);
        let labelled = if bare.len() == fence.len() && matches_at(&bare, 0, &fence) && i + 1 < lines.len() {
            let next = trimmed_start(&lines[i + 1]);
            starts_with_text(&next, &kubectl)
        } else {
            false
        };
        proof {
            reveal_strlit("```");
            assert(lv[i as int] == lines@[i as int]@);
            if i + 1 < lines.len() {
                assert(lv[i + 1] == lines@[i + 1]@);
            }
            if bare.len() == 3 {
                assert(bare@.subrange(0, 3) =~= bare@);
            }
        }
        assert(labelled == (trim(lv[i as int]) == "```"@ && i + 1 < lv.len() && has_prefix(
            trim_start(lv[i + 1]),
            "kubectl"@,
        )));
        if labelled {
            out.push(chars_of("```text"));
        } else {
            out.push(copy_chars(&lines[i]));
        }
        i += 1;
    }
    assert(pieces_view(out@) =~= label_command_fences(lv));
    join_with_newlines(&out)
}

fn opens_command_line(line: &Vec<char>) -> (r: bool)
    ensures
        r == opens_command(line@),
{
    let t = trimmed_start(line);
    proof {
        reveal_strlit("kubectl create secret generic docr");
    }
    starts_with_text(&t, &chars_of("kubectl create secret generic docr")) && starts_with_text(
        line,
        &chars_of("    "),
    )
}

fn continues_command_line(line: &Vec<char>) -> (r: bool)
    ensures
        r == continues_command(line@),
{
    let t = trimmed(line);
    t.len() == 0 || (starts_with_text(line, &chars_of("      ")) && (contains_text(
        line,
        &chars_of("--from-file"),
    ) || contains_text(line, &chars_of("--type"))))
}

fn ends_command_line(line: &Vec<char>) -> (r: bool)
    ensures
        r == ends_command(line@),
{
    let t = trimmed(line);
    t.len() > 0 && t[t.len() - 1] != '\\'
}

fn push_fenced(out: &mut Vec<Vec<char>>, block: &Vec<Vec<char>>)
    ensures
        pieces_view(final(out)@) == pieces_view(old(out)@) + fenced(pieces_view(block@)),
{
    let ghost start = pieces_view(out@);
    out.push(chars_of("```text"));
    assert(pieces_view(out@) =~= start + seq!["```text"@]);
    let mut i: usize = 0;
    while i < block.len()
        invariant
            i <= block.len(),
            pieces_view(out@) == start + seq!["```text"@] + pieces_view(block@).subrange(0, i as int),
        decreases block.len() - i,
    {
        let ghost before = out@;
        out.push(copy_chars(&block[i]));
        assert(pieces_view(out@) =~= pieces_view(before).push(block@[i as int]@));
        assert(pieces_view(block@).subrange(0, i + 1) =~= pieces_view(block@).subrange(
            0,
            i as int,
        ).push(block@[i as int]@));
        i += 1;
    }
    let ghost before = out@;
    out.push(chars_of("```"));
    assert(pieces_view(block@).subrange(0, i as int) =~= pieces_view(block@));
    assert(pieces_view(out@) =~= pieces_view(before).push("```"@));
    assert(pieces_view(out@) =~= start + fenced(pieces_view(block@)));
}

/// Puts each indented command in a `text` fence, line by line.
pub fn wrap_command_lines(s: &[char]) -> (r: Vec<char>)
    ensures
        r@ == join_lines(wrap_commands(split_on(s@, '\n'))),
{
    let lines = lines_of(s);
    let ghost lv = pieces_view(lines@);
    let mut out: Vec<Vec<char>> = Vec::new();
    let mut in_block = false;
    let mut block: Vec<Vec<char>> = Vec::new();
    let mut open = false;
    let fence = chars_of("```");
    let ghost init: WrapState = (Seq::empty(), false, Seq::empty(), false);
    assert(pieces_view(out@) =~= Seq::<Seq<char>>::empty());
    assert(pieces_view(block@) =~= Seq::<Seq<char>>::empty());
    assert(lv.subrange(0, lv.len() as int) == lv);
    let mut i: usize = 0;
    while i < lines.len()
        invariant
            i <= lines.len(),
            lv == pieces_view(lines@),
            fence@ == "```"@,
            wrap_from(lv, init) == wrap_from(
                lv.subrange(i as int, lv.len() as int),
                (pieces_view(out@), in_block, pieces_view(block@), open),
            ),
        decreases lines.len() - i,
    {
        let ghost tail = lv.subrange(i as int, lv.len() as int);
        assert(tail[0] == lines@[i as int]@);
        assert(tail.drop_first() == lv.subrange(i + 1, lv.len() as int));
        let ghost st: WrapState = (pieces_view(out@), in_block, pieces_view(block@), open);
        let ghost next = wrap_step(st, lines@[i as int]@);
        let line = &lines[i];
        let fence_line = starts_with_text(&trimmed_start(line), &fence);
        let open2 = if fence_line {
            !open
        } else {
            open
        };
        if opens_command_line(line) && !open {
            if block.len() > 0 {
                push_fenced(&mut out, &block);
            }
            in_block = true;
            block = Vec::new();
            block.push(copy_chars(line));
            assert(pieces_view(block@) =~= seq![line@]);
        } else if in_block {
            if continues_command_line(line) {
                let ghost bb = pieces_view(block@);
                block.push(copy_chars(line));
                assert(pieces_view(block@) =~= bb.push(line@));
                if ends_command_line(line) {
                    push_fenced(&mut out, &block);
                    in_block = false;
                    block = Vec::new();
                    assert(pieces_view(block@) =~= Seq::<Seq<char>>::empty());
                }
                open = open2;
            } else {
                if block.len() > 0 {
                    push_fenced(&mut out, &block);
                }
                let ghost ob = pieces_view(out@);
                out.push(copy_chars(line));
                assert(pieces_view(out@) =~= ob.push(line@));
                in_block = false;
                block = Vec::new();
                assert(pieces_view(block@) =~= Seq::<Seq<char>>::empty());
                open = open2;
            }
        } else {
            let ghost ob = pieces_view(out@);
            out.push(copy_chars(line));
            assert(pieces_view(out@) =~= ob.push(line@));
            open = open2;
        }
        assert((pieces_view(out@), in_block, pieces_view(block@), open) == next);
        i += 1;
    }
    assert(lv.subrange(i as int, lv.len() as int) =~= Seq::<Seq<char>>::empty());
    if block.len() > 0 {
        push_fenced(&mut out, &block);
    }
    join_with_newlines(&out)
}

} // verus!
