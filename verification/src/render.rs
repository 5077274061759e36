//! A picture of a list in text, for reading: one row per degree that draws
//! the links, a row of positions, a row that marks the gaps that hold a
//! sublist, and below them the pictures of the sublists, set off by a bar.

use vstd::prelude::*;
use vstd::arithmetic::div_mod::*;
use vstd::arithmetic::power2::*;
use vstd::bits::*;
use vstd::string::*;
use crate::links::{degree_count, lemma_capacity_shape, lemma_pow2_fits};
use crate::list::SpacedList;
use crate::model::ListView;
use crate::spacing::Spacing;

verus! {

/// The letters that name the sublists of a list.
pub open spec fn id_letters() -> Seq<char> {
    "abcdefghijklmnopqrstuvwxyzABCDEFGHIJKLMNOPQRSTUVWXYZ"@
}

/// The decimal digits.
pub open spec fn digits() -> Seq<char> {
    "0123456789"@
}

/// `count` times the character `unit`.
pub open spec fn repeated(unit: char, count: nat) -> Seq<char> {
    Seq::new(count, |i: int| unit)
}

/// The number `n` written in decimal digits.
pub open spec fn decimal(n: nat) -> Seq<char>
    decreases n,
{
    if n < 10 {
        seq![digits()[n as int]]
    } else {
        decimal(n / 10).push(digits()[(n % 10) as int])
    }
}

/// The number `n` in decimal digits, with a blank before a single digit.
pub open spec fn padded(n: nat) -> Seq<char> {
    if n < 10 {
        seq![' '] + decimal(n)
    } else {
        decimal(n)
    }
}

/// `text` with `indentation` put before every line that is not empty.
///
/// `at_line_start` says whether the first character of `text` starts a line.
pub open spec fn indented_from(text: Seq<char>, indentation: Seq<char>, at_line_start: bool) -> Seq<
    char,
>
    decreases text.len(),
{
    if text.len() == 0 {
        Seq::empty()
    } else if text[0] == '\n' {
        seq!['\n'] + indented_from(text.drop_first(), indentation, true)
    } else if at_line_start {
        indentation + seq![text[0]] + indented_from(text.drop_first(), indentation, false)
    } else {
        seq![text[0]] + indented_from(text.drop_first(), indentation, false)
    }
}

/// `String::push`: the text with the character behind it.
#[verifier::external_body]
fn push_char(text: &mut String, c: char)
    ensures
        final(text)@ == old(text)@.push(c),
{
    text.push(c)
}

/// `indenter::indented` with `Indented::with_str`, written to once with the
/// whole of `text`: the indentation goes before the first character of every
/// line that has one, and the line feeds stay as they are.
#[verifier::external_body]
fn indent(text: &str, indentation: &'static str) -> (result: String)
    ensures
        result@ == indented_from(text@, indentation@, true),
{
    let mut result = String::new();
    let _ = std::fmt::Write::write_str(
        &mut indenter::indented(&mut result).with_str(indentation),
        text,
    );
    result
}

/// The letter that names the sublist number `id` of a list: the letters of
/// the alphabet, small ones first, over and over.
pub fn id_letter(id: usize) -> (letter: char)
    ensures
        letter == id_letters()[id as int % 52],
{
    proof {
        reveal_strlit("abcdefghijklmnopqrstuvwxyzABCDEFGHIJKLMNOPQRSTUVWXYZ");
    }
    "abcdefghijklmnopqrstuvwxyzABCDEFGHIJKLMNOPQRSTUVWXYZ".get_char(id % 52)
}

/// Puts `count` times the character `unit` behind the text.
fn push_repeated(text: &mut String, unit: char, count: usize)
    ensures
        final(text)@ == old(text)@ + repeated(unit, count as nat),
{
    let mut done: usize = 0;
    assert(text@ =~= old(text)@ + repeated(unit, 0));
    while done < count
        invariant
            done <= count,
            text@ == old(text)@ + repeated(unit, done as nat),
        decreases count - done,
    {
        push_char(text, unit);
        done += 1;
        assert(text@ =~= old(text)@ + repeated(unit, done as nat));
    }
}

/// Puts the number `n` in decimal digits behind the text.
fn push_decimal(text: &mut String, n: usize)
    ensures
        final(text)@ == old(text)@ + decimal(n as nat),
    decreases n,
{
    proof {
        reveal_strlit("0123456789");
    }
    if n >= 10 {
        push_decimal(text, n / 10);
    }
    push_char(text, "0123456789".get_char(n % 10));
    assert(text@ =~= old(text)@ + decimal(n as nat));
}

/// Puts the number `n` behind the text, in decimal digits and at least two
/// characters wide.
fn push_padded(text: &mut String, n: usize)
    ensures
        final(text)@ == old(text)@ + padded(n as nat),
{
    if n < 10 {
        push_char(text, ' ');
    }
    push_decimal(text, n);
    assert(text@ =~= old(text)@ + padded(n as nat));
}

impl ListView {
    /// The length of the link of degree `degree` from node `start`: the
    /// distance from that node to the node at the far end of the link, or to
    /// the last node where the link reaches past it.
    pub open spec fn link_length(self, start: nat, degree: nat) -> int {
        self.position((start + pow2(degree)) as int) - self.position(start as int)
    }

    /// One link of the row of a degree: an overline twice as long as the
    /// link, less one, and the stroke that ends it.
    pub open spec fn link_piece(self, start: nat, degree: nat) -> Seq<char> {
        repeated('\u{203e}', (2 * self.link_length(start, degree) - 1) as nat).push('\\')
    }

    /// How many gaps lie behind node `start`.
    pub open spec fn gaps_from(self, start: nat) -> nat {
        if start < self.gaps.len() {
            (self.gaps.len() - start) as nat
        } else {
            0
        }
    }

    /// The links of degree `degree` from node `start` on, one after the
    /// other.
    pub open spec fn link_row_from(self, degree: nat, start: nat) -> Seq<char>
        decreases self.gaps_from(start),
    {
        if start >= self.gaps.len() {
            Seq::empty()
        } else {
            proof {
                lemma_pow2_pos(degree);
            }
            self.link_piece(start, degree) + self.link_row_from(degree, start + pow2(degree))
        }
    }

    /// The rows of the links of the degrees below `degrees`, the highest
    /// first: each a blank, the links of the degree, and a line feed.
    pub open spec fn link_rows(self, degrees: nat) -> Seq<char>
        decreases degrees,
    {
        if degrees == 0 {
            Seq::empty()
        } else {
            let degree = (degrees - 1) as nat;
            seq![' '] + self.link_row_from(degree, 0) + seq!['\n'] + self.link_rows(degree)
        }
    }

    /// One node of the row of positions: blanks for the gap before it, less
    /// one, and its position.
    pub open spec fn position_piece(self, node: nat) -> Seq<char> {
        repeated(' ', (self.gaps[node - 1] - 1) as nat) + padded(self.position(node as int) as nat)
    }

    /// The row of positions up to node `nodes`: the zero of the anchor, and
    /// the nodes behind it.
    pub open spec fn position_row(self, nodes: nat) -> Seq<char>
        decreases nodes,
    {
        if nodes == 0 {
            seq!['0']
        } else {
            self.position_row((nodes - 1) as nat) + self.position_piece(nodes)
        }
    }

    /// How many of the gaps before gap `gap` hold a sublist.
    pub open spec fn present_before(self, gap: nat) -> nat
        decreases gap,
    {
        if gap == 0 {
            0
        } else {
            self.present_before((gap - 1) as nat) + if self.sublists[gap - 1] is Some {
                1nat
            } else {
                0nat
            }
        }
    }

    /// The letter that names the sublist in gap `gap`.
    pub open spec fn letter(self, gap: nat) -> char {
        id_letters()[self.present_before(gap) as int % 52]
    }

    /// One gap of the row of sublists: a caret and the letter of the sublist,
    /// or two blanks where the gap holds none, and blanks for the gap, less
    /// one.
    pub open spec fn mark_piece(self, gap: nat) -> Seq<char> {
        (if self.sublists[gap as int] is Some {
            seq!['^', self.letter(gap)]
        } else {
            seq![' ', ' ']
        }) + repeated(' ', (self.gaps[gap as int] - 1) as nat)
    }

    /// The row of sublists up to gap `gaps`.
    pub open spec fn sublist_row(self, gaps: nat) -> Seq<char>
        decreases gaps,
    {
        if gaps == 0 {
            seq![' ']
        } else {
            self.sublist_row((gaps - 1) as nat) + self.mark_piece((gaps - 1) as nat)
        }
    }

    /// The heading of the picture of the sublist in gap `gap`.
    pub open spec fn heading(self, gap: nat) -> Seq<char> {
        "sublist "@.push(self.letter(gap)) + ": \n"@
    }

    /// The pictures of the sublists in the gaps before gap `gaps`: each its
    /// heading and its picture, with a bar before every line.
    pub open spec fn blocks(self, gaps: nat) -> Seq<char>
        decreases self, gaps,
    {
        if gaps == 0 {
            Seq::empty()
        } else {
            let gap = (gaps - 1) as nat;
            self.blocks(gap) + if gap < self.sublists.len() {
                match self.sublists[gap as int] {
                    Some(sublist) => indented_from(
                        self.heading(gap) + sublist.rendering(),
                        "| "@,
                        true,
                    ),
                    None => Seq::empty(),
                }
            } else {
                Seq::empty()
            }
        }
    }

    /// The picture of the list: the rows of links, the row of positions, the
    /// row of sublists, and the pictures of the sublists.
    pub open spec fn rendering(self) -> Seq<char>
        decreases self, self.gaps.len() + 1,
    {
        self.link_rows(degree_count(self.size())) + self.position_row(self.gaps.len()) + seq![
            '\n',
        ] + self.sublist_row(self.gaps.len()) + seq!['\n'] + self.blocks(self.gaps.len())
    }
}

impl<S: Spacing> SpacedList<S> {
    /// The picture of the list in text, sublists included.
    ///
    /// The length of the list, doubled, has to be a number that a `usize`
    /// can hold.
    pub fn render(&self) -> (text: String)
        requires
            self.wf(),
            2 * self.length.value() <= usize::MAX,
        ensures
            text@ == self@.rendering(),
        decreases self,
    {
        let ghost view = self@;
        let ghost gaps = self.gaps();
        let ghost degrees = degree_count(self.size as nat);
        proof {
            self.lemma_view_wf();
            lemma_capacity_shape(self.size as nat);
            lemma_pow2_fits(degrees);
            self.length.lemma_value_fits();
            S::lemma_zero_fits();
        }
        let mut text = String::new();
        let depth = self.depth();
        let mut degree = depth;
        assert(text@ + view.link_rows(degree as nat) =~= view.link_rows(degrees));
        while degree > 0
            invariant
                self.wf(),
                view == self@,
                degrees == degree_count(self.size as nat),
                degree <= depth == degrees,
                degrees < usize::BITS,
                2 * self.length.value() <= usize::MAX,
                text@ + view.link_rows(degree as nat) == view.link_rows(degrees),
            decreases degree,
        {
            let ghost before_row = text@;
            degree -= 1;
            push_char(&mut text, ' ');
            let ghost row_start = text@;
            let mut index: usize = 0;
            proof {
                lemma_pow2_pos(degree as nat);
                lemma_small_mod(0, pow2(degree as nat));
                lemma_usize_pow2_no_overflow(degree as nat);
                lemma_usize_shl_is_mul(1, degree);
            }
            while index < self.size - 1
                invariant
                    self.wf(),
                    view == self@,
                    degrees == degree_count(self.size as nat),
                    degree < degrees,
                    degrees < usize::BITS,
                    2 * self.length.value() <= usize::MAX,
                    index as nat % pow2(degree as nat) == 0,
                    index <= self.link_lengths.len() + 1,
                    (1usize << degree) == pow2(degree as nat),
                    text@ + view.link_row_from(degree as nat, index as nat) == row_start
                        + view.link_row_from(degree as nat, 0),
                decreases self.size + pow2(degree as nat) - index,
            {
                proof {
                    self.lemma_link(index as nat, degree as nat);
                }
                let link_length = self.link_length(index, degree).to_usize();
                let ghost before_piece = text@;
                push_repeated(&mut text, '\u{203e}', link_length * 2 - 1);
                push_char(&mut text, '\\');
                assert(text@ =~= before_piece + view.link_piece(index as nat, degree as nat));
                assert(before_piece + view.link_row_from(degree as nat, index as nat) =~= text@
                    + view.link_row_from(degree as nat, index as nat + pow2(degree as nat)));
                index += 1 << degree;
            }
            push_char(&mut text, '\n');
            assert(text@ + view.link_rows(degree as nat) =~= before_row + view.link_rows(
                (degree + 1) as nat,
            )) by {
                assert(view.link_row_from(degree as nat, index as nat) =~= Seq::<char>::empty());
                assert(text@ =~= row_start + view.link_row_from(degree as nat, 0) + seq!['\n']);
            }
        }
        let ghost after_links = text@;
        assert(after_links =~= view.link_rows(degrees));
        push_char(&mut text, '0');
        let mut position = S::zero();
        let mut index: usize = 1;
        while index < self.size
            invariant
                self.wf(),
                view == self@,
                gaps == self.gaps(),
                1 <= index <= self.size,
                2 * self.length.value() <= usize::MAX,
                position.value() == view.position(index - 1),
                S::fits(0),
                S::fits(self.length.value()),
                text@ == after_links + view.position_row((index - 1) as nat),
            decreases self.size - index,
        {
            proof {
                self.lemma_gap(index - 1);
                lemma2_to64();
                S::lemma_fits_between(0, view.position(index as int), self.length.value());
            }
            let link_length = self.link_length(index - 1, 0);
            position = position.plus(link_length);
            let ghost before_piece = text@;
            push_repeated(&mut text, ' ', link_length.to_usize() - 1);
            push_padded(&mut text, position.to_usize());
            assert(text@ =~= before_piece + view.position_piece(index as nat));
            assert(text@ =~= after_links + view.position_row(index as nat));
            index += 1;
        }
        let ghost after_positions = text@;
        push_char(&mut text, '\n');
        push_char(&mut text, ' ');
        let ghost row_base = after_positions.push('\n');
        assert(text@ =~= row_base + view.sublist_row(0));
        let mut shown: usize = 0;
        let mut index: usize = 0;
        while index < self.size - 1
            invariant
                self.wf(),
                view == self@,
                gaps == self.gaps(),
                index <= self.size - 1,
                2 * self.length.value() <= usize::MAX,
                shown == view.present_before(index as nat),
                shown <= index,
                text@ == row_base + view.sublist_row(index as nat),
            decreases self.size - index,
        {
            proof {
                self.lemma_gap(index as int);
                lemma2_to64();
            }
            let link_length = self.link_length(index, 0);
            let ghost before_piece = text@;
            if self.sublists[index].is_some() {
                push_char(&mut text, '^');
                push_char(&mut text, id_letter(shown));
                shown += 1;
            } else {
                push_char(&mut text, ' ');
                push_char(&mut text, ' ');
            }
            push_repeated(&mut text, ' ', link_length.to_usize() - 1);
            assert(view.sublists[index as int] is Some == self.sublists[index as int] is Some);
            assert(text@ =~= before_piece + view.mark_piece(index as nat));
            index += 1;
        }
        push_char(&mut text, '\n');
        let ghost block_base = text@;
        assert(text@ =~= block_base + view.blocks(0));
        let mut shown: usize = 0;
        let mut index: usize = 0;
        while index < self.size - 1
            invariant
                self.wf(),
                view == self@,
                gaps == self.gaps(),
                index <= self.size - 1,
                2 * self.length.value() <= usize::MAX,
                shown == view.present_before(index as nat),
                shown <= index,
                text@ == block_base + view.blocks(index as nat),
            decreases self.size - index,
        {
            let ghost before_block = text@;
            assert(view.sublists[index as int] is Some == self.sublists[index as int] is Some);
            if let Some(sublist) = &self.sublists[index] {
                proof {
                    reveal_strlit("sublist ");
                    reveal_strlit(": \n");
                    reveal_strlit("| ");
                    self.lemma_gap(index as int);
                    assert(self.sublists[index as int] == Some(*sublist));
                    assert(view.sublists[index as int] == Some(sublist@));
                }
                let mut block = String::new();
                block.append("sublist ");
                push_char(&mut block, id_letter(shown));
                block.append(": \n");
                let picture = sublist.render();
                block.append(picture.as_str());
                assert(block@ =~= view.heading(index as nat) + sublist@.rendering());
                let indented = indent(block.as_str(), "| ");
                text.append(indented.as_str());
                shown += 1;
            }
            assert(text@ =~= block_base + view.blocks((index + 1) as nat));
            index += 1;
        }
        assert(text@ =~= view.rendering());
        text
    }
}

} // verus!
