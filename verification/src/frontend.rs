//! What the interactive front ends compute: the two-pane window turns the
//! text of its left pane into the text of its right pane and shows a status
//! line; the terminal front end joins the lines it was given.
use std::borrow::Cow;
use vstd::prelude::*;
use vstd::string::StringSliceAdditionalSpecFns;

use crate::config::texts;
use crate::decode::{decode, spec_decode, unknown_char_message};
use crate::encode::{encode, encoded_len, spec_encode};
use crate::strings::{string_from_utf8, utf8_error_text};

verus! {

/// The mode of the two-pane window.
#[derive(Clone, Copy, PartialEq, Eq, Structural, Debug)]
pub enum Op {
    Encode,
    Decode,
}

/// The status line's name of a mode.
pub open spec fn mode_label(op: Op) -> Seq<char> {
    match op {
        Op::Encode => "[Encode]"@,
        Op::Decode => "[Decode]"@,
    }
}

/// The status line's name of a mode.
pub fn get_label_for_mode(op: Op) -> (label: &'static str)
    ensures
        label@ == mode_label(op),
{
    match op {
        Op::Encode => "[Encode]",
        Op::Decode => "[Decode]",
    }
}

/// The status line: the mode's name, then `: ` and the extra text if any.
pub fn status_label(op: Op, extra: Option<&str>) -> (status: String)
    ensures
        status@ == mode_label(op) + match extra {
            Some(e) => ": "@ + e@,
            None => Seq::<char>::empty(),
        },
{
    let mut status = String::from_str(get_label_for_mode(op));
    match extra {
        Some(e) => {
            status.append(": ");
            status.append(e);
            assert(status@ =~= mode_label(op) + (": "@ + e@));
        },
        None => {
            assert(status@ =~= mode_label(op) + Seq::<char>::empty());
        },
    }
    status
}

/// The lines, each but the first put after a line break.
pub open spec fn joined(lines: Seq<Seq<char>>) -> Seq<char>
    decreases lines.len(),
{
    if lines.len() == 0 {
        seq![]
    } else if lines.len() == 1 {
        lines[0]
    } else {
        joined(lines.drop_last()) + seq!['\n'] + lines.last()
    }
}

/// The number of characters in all the lines.
pub open spec fn total_len(lines: Seq<Seq<char>>) -> nat
    decreases lines.len(),
{
    if lines.len() == 0 {
        0
    } else {
        total_len(lines.drop_last()) + lines.last().len()
    }
}

/// Where the `i`-th line starts in the joined text: after the lines before it
/// and a line break after each of them.
pub open spec fn line_start(lines: Seq<Seq<char>>, i: int) -> int {
    total_len(lines.take(i)) + i
}

/// Joining one more line, after at least one, puts a line break and then the
/// line after what was joined, whatever the lines hold, empty ones included.
pub proof fn lemma_joined_push(lines: Seq<Seq<char>>, l: Seq<char>)
    requires
        lines.len() >= 1,
    ensures
        joined(lines.push(l)) == joined(lines) + seq!['\n'] + l,
{
    assert(lines.push(l).drop_last() =~= lines);
}

proof fn lemma_total_len_step(lines: Seq<Seq<char>>, i: int)
    requires
        0 <= i < lines.len(),
    ensures
        total_len(lines.take(i + 1)) == total_len(lines.take(i)) + lines[i].len(),
        line_start(lines, i + 1) == line_start(lines, i) + lines[i].len() + 1,
{
    assert(lines.take(i + 1).drop_last() =~= lines.take(i));
}

proof fn lemma_total_len_prefix(lines: Seq<Seq<char>>, k: int)
    requires
        0 <= k <= lines.len(),
    ensures
        total_len(lines.take(k)) <= total_len(lines),
    decreases lines.len(),
{
    if k == lines.len() {
        assert(lines.take(k) =~= lines);
    } else {
        let front = lines.drop_last();
        assert(lines.take(k) =~= front.take(k));
        lemma_total_len_prefix(front, k);
    }
}

/// Where a line stands in the joined text of one more line.
proof fn lemma_joined_push_places(front: Seq<Seq<char>>, l: Seq<char>, i: int)
    requires
        front.len() >= 1,
        0 <= i < front.len(),
        joined(front).len() == total_len(front) + front.len() - 1,
    ensures
        line_start(front.push(l), i) == line_start(front, i),
        line_start(front, i) + front[i].len() <= joined(front).len(),
        joined(front.push(l)).subrange(line_start(front, i), line_start(front, i) + front[i].len())
            == joined(front).subrange(line_start(front, i), line_start(front, i) + front[i].len()),
{
    let lines = front.push(l);
    assert(lines.take(i) =~= front.take(i));
    lemma_total_len_step(front, i);
    lemma_total_len_prefix(front, i + 1);
    lemma_joined_push(front, l);
    let a = line_start(front, i);
    let b = a + front[i].len();
    assert(joined(lines).subrange(a, b) =~= joined(front).subrange(a, b));
}

/// The joined text of `n >= 1` lines has the characters of all the lines and
/// `n - 1` line breaks: each line stands at its place, and a line break
/// follows every line but the last.
pub proof fn lemma_joined_layout(lines: Seq<Seq<char>>)
    requires
        lines.len() >= 1,
    ensures
        joined(lines).len() == total_len(lines) + lines.len() - 1,
        forall|i: int|
            0 <= i < lines.len() ==> joined(lines).subrange(
                line_start(lines, i),
                line_start(lines, i) + lines[i].len(),
            ) == #[trigger] lines[i],
        forall|i: int|
            0 <= i < lines.len() - 1 ==> joined(lines)[line_start(lines, i) + lines[i].len()]
                == '\n',
    decreases lines.len(),
{
    let n = lines.len();
    if n == 1 {
        assert(lines.take(0) =~= Seq::<Seq<char>>::empty());
        assert(lines.drop_last() =~= Seq::<Seq<char>>::empty());
        assert(joined(lines).subrange(0, lines[0].len() as int) =~= lines[0]);
    } else {
        let front = lines.drop_last();
        let l = lines.last();
        assert(front.push(l) =~= lines);
        lemma_joined_layout(front);
        lemma_joined_push(front, l);
        let j = joined(front);
        assert(lines.take(n - 1) =~= front);
        assert(front.take(n - 1) =~= front);
        assert forall|i: int| 0 <= i < n implies joined(lines).subrange(
            line_start(lines, i),
            line_start(lines, i) + lines[i].len(),
        ) == #[trigger] lines[i] by {
            if i < n - 1 {
                lemma_joined_push_places(front, l, i);
                assert(lines[i] == front[i]);
            } else {
                assert(joined(lines).subrange(line_start(lines, i), line_start(lines, i)
                    + lines[i].len()) =~= l);
            }
        }
        assert forall|i: int| 0 <= i < n - 1 implies joined(lines)[line_start(lines, i)
            + lines[i].len()] == '\n' by {
            lemma_joined_push_places(front, l, i);
            assert(lines[i] == front[i]);
            lemma_total_len_step(front, i);
            if i < n - 2 {
                lemma_total_len_prefix(front, i + 2);
                lemma_total_len_step(front, i + 1);
            }
        }
    }
}

/// Joins the lines of a text area into one text, with a line break between
/// two lines.
pub fn join_lines(lines: &[String]) -> (text: String)
    ensures
        text@ == joined(texts(lines@)),
{
    let mut text = String::new();
    let mut i: usize = 0;
    assert(texts(lines@).take(0) =~= Seq::<Seq<char>>::empty());
    while i < lines.len()
        invariant
            i <= lines@.len(),
            text@ == joined(texts(lines@).take(i as int)),
        decreases lines@.len() - i,
    {
        let ghost before = text@;
        proof {
            assert(texts(lines@).take(i + 1).drop_last() =~= texts(lines@).take(i as int));
            assert(texts(lines@).take(i + 1).last() == lines@[i as int]@);
        }
        if i != 0 {
            text.append("\n");
            proof {
                reveal_strlit("\n");
            }
        }
        text.append(lines[i].as_str());
        proof {
            if i == 0 {
                assert(text@ =~= lines@[0]@);
            } else {
                assert(text@ =~= before + seq!['\n'] + lines@[i as int]@);
            }
        }
        i += 1;
    }
    assert(texts(lines@).take(lines@.len() as int) =~= texts(lines@));
    text
}

/// What the right pane shows for the text of the left pane: its encoding
/// (of its UTF-8 bytes), or what it decodes to read as UTF-8. An error is
/// the text for the status line.
pub fn convert(op: Op, text: &str) -> (r: Result<String, String>)
    requires
        op == Op::Encode ==> 2 * encoded_len(text.spec_bytes().len()) <= isize::MAX,
    ensures
        op == Op::Encode ==> (r matches Ok(s) && s@ == spec_encode(text.spec_bytes())),
        op == Op::Decode ==> match spec_decode(text@) {
            Err(c) => r matches Err(m) && m@ == "ERROR: "@ + unknown_char_message(c),
            Ok(bytes) => if vstd::utf8::valid_utf8(bytes) {
                r matches Ok(s) && s@ == vstd::utf8::decode_utf8(bytes)
            } else {
                r matches Err(m) && m@ == "ERROR: "@ + utf8_error_text(bytes)
            },
        },
{
    match op {
        Op::Encode => Ok(encode(text.as_bytes())),
        Op::Decode => match decode(text) {
            Ok(dec) => match string_from_utf8(dec) {
                Ok(s) => Ok(s),
                Err(err) => {
                    let mut m = String::from_str("ERROR: ");
                    m.append(err.as_str());
                    Err(m)
                },
            },
            Err(err) => {
                let mut m = String::from_str("ERROR: ");
                match &err {
                    Cow::Borrowed(b) => m.append(b),
                    Cow::Owned(o) => m.append(o.as_str()),
                }
                Err(m)
            },
        },
    }
}

/// A mouse event on the window, as far as dragging the divider goes.
#[derive(Clone, Copy, PartialEq, Eq, Structural, Debug)]
pub enum DragEvent {
    Push,
    Drag,
    Released,
    Other,
}

/// Whether an arithmetic result fits in an `i32`.
pub open spec fn fits_i32(v: int) -> bool {
    i32::MIN <= v <= i32::MAX
}

/// One event of dragging the divider between the panes. Given whether a drag
/// is going on, the event, the pointer's `x` and the left pane's and right
/// pane's horizontal extent, it returns whether a drag goes on afterwards,
/// whether the event was handled, and the new widths of the left and right
/// panes where they change: a push starts a drag, a release ends it, and a
/// drag moves the divider to `x` where both panes keep 50 pixels.
pub fn drag_step(dragging: bool, ev: DragEvent, x: i32, left_x: i32, right_x: i32, right_w: i32)
    -> (r: (bool, bool, Option<(i32, i32)>))
    requires
        ev == DragEvent::Drag && dragging ==> {
            &&& fits_i32(left_x + 50)
            &&& fits_i32(right_x + right_w)
            &&& fits_i32(right_x + right_w - 50)
            &&& left_x + 50 <= x <= right_x + right_w - 50 ==> fits_i32(x - left_x) && fits_i32(
                right_x + right_w - x,
            ) && fits_i32(right_x + right_w - x - 4)
        },
    ensures
        r == match ev {
            DragEvent::Push => (true, true, None),
            DragEvent::Drag => if dragging {
                if left_x + 50 <= x <= right_x + right_w - 50 {
                    (true, true, Some(((x - left_x) as i32, (right_x + right_w - x - 4) as i32)))
                } else {
                    (true, true, None)
                }
            } else {
                (false, false, None)
            },
            DragEvent::Released => (false, true, None),
            DragEvent::Other => (dragging, false, None),
        },
{
    match ev {
        DragEvent::Push => (true, true, None),
        DragEvent::Drag if dragging => {
            let min_x = left_x + 50;
            let max_x = right_x + right_w - 50;
            if x >= min_x && x <= max_x {
                let left_w = x - left_x;
                let right_w = right_x + right_w - x - 4;
                (true, true, Some((left_w, right_w)))
            } else {
                (true, true, None)
            }
        },
        DragEvent::Released => (false, true, None),
        _ => (dragging, false, None),
    }
}

} // verus!
