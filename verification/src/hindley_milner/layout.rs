//! The layout of a derivation as lines of text: premises side by side, a rule under them,
//! the conclusion centred under the rule, and the name of the rule beside it.
use vstd::prelude::*;

use super::derivation::{Judgement, JudgementModel, Proof, ProofModel};
use super::render::{bindings_text, judgement_text, typing_text};

verus! {

/// Where the text stands in a padded field.
#[derive(Debug, Clone, Copy, PartialEq, Eq, Structural)]
pub enum Align {
    Left,
    Center,
    Right,
}

/// The number of terminal columns that a text takes, as `console::measure_text_width`
/// counts them.
pub uninterp spec fn text_width(text: Seq<char>) -> usize;

/// `n` spaces.
pub open spec fn spaces(n: int) -> Seq<char> {
    Seq::new(n as nat, |i: int| ' ')
}

/// A horizontal rule of `n` columns.
pub open spec fn rule_text(n: int) -> Seq<char> {
    Seq::new(n as nat, |i: int| '─')
}

/// The text of `cols` columns in a field of `width` columns: unchanged if it fills the
/// field, and else with spaces after it, before it, or on both sides with the odd one after.
pub open spec fn padded(text: Seq<char>, cols: int, width: int, align: Align) -> Seq<char> {
    if cols >= width {
        text
    } else {
        let diff = width - cols;
        match align {
            Align::Left => text + spaces(diff),
            Align::Right => spaces(diff) + text,
            Align::Center => spaces(diff / 2) + text + spaces(diff - diff / 2),
        }
    }
}

/// The text in a field of `width` columns.
pub open spec fn pad_text(text: Seq<char>, width: usize, align: Align) -> Seq<char> {
    padded(text, text_width(text) as int, width as int, align)
}

/// `text` without the `skipped` characters at its beginning.
pub open spec fn skip_leading(text: Seq<char>, skipped: char) -> Seq<char>
    decreases text.len(),
{
    if text.len() > 0 && text[0] == skipped {
        skip_leading(text.skip(1), skipped)
    } else {
        text
    }
}

/// `console::measure_text_width`: the number of terminal columns of the text, without its
/// ANSI escape codes. It is a function of the text alone.
#[verifier::external_body]
fn measure(text: &str) -> (width: usize)
    ensures
        width == text_width(text@),
{
    console::measure_text_width(text)
}

/// `console::pad_str`, without truncation: a text that is as wide as the field or wider
/// comes back unchanged; a narrower one gets the missing columns as spaces, on the side
/// that the alignment leaves free, or half of them before and the rest after.
#[verifier::external_body]
fn pad(text: &str, width: usize, align: Align) -> (result: String)
    ensures
        result@ == pad_text(text@, width, align),
{
    let align = match align {
        Align::Left => console::Alignment::Left,
        Align::Center => console::Alignment::Center,
        Align::Right => console::Alignment::Right,
    };
    console::pad_str(text, width, align, None).into_owned()
}

/// The line without the rule characters at its beginning.
fn trim_rule(line: &str) -> (rest: &str)
    ensures
        rest@ == skip_leading(line@, '─'),
{
    let n = line.unicode_len();
    let mut i: usize = 0;
    assert(line@.skip(0) =~= line@);
    while i < n && line.get_char(i) == '─'
        invariant
            i <= n,
            n == line@.len(),
            skip_leading(line@, '─') == skip_leading(line@.skip(i as int), '─'),
        decreases n - i,
    {
        proof {
            assert(line@.skip(i as int).skip(1) =~= line@.skip(i + 1));
        }
        i = i + 1;
    }
    proof {
        assert(line@.skip(i as int) =~= line@.subrange(i as int, n as int));
    }
    line.substring_char(i, n)
}

/// The width of the first line, or of the empty text where there is no line.
pub open spec fn first_width(lines: Seq<Seq<char>>) -> usize {
    if lines.len() == 0 {
        text_width(Seq::empty())
    } else {
        text_width(lines[0])
    }
}

/// The sum of two widths, or the largest width that the machine can hold.
pub open spec fn width_sum(a: usize, b: usize) -> usize {
    if a + b > usize::MAX {
        usize::MAX
    } else {
        (a + b) as usize
    }
}

/// The difference of two widths, or zero.
pub open spec fn width_diff(a: usize, b: usize) -> usize {
    if a < b {
        0
    } else {
        (a - b) as usize
    }
}

/// The larger of two widths.
pub open spec fn width_max(a: usize, b: usize) -> usize {
    if a < b {
        b
    } else {
        a
    }
}

/// The block with blank lines of the width of its first line above it, to the height
/// `height`.
pub open spec fn raised(block: Seq<Seq<char>>, height: int) -> Seq<Seq<char>> {
    Seq::new((height - block.len()) as nat, |i: int| spaces(first_width(block) as int)) + block
}

/// Two blocks side by side, aligned at the bottom, with two spaces between them where the
/// line of the left block is not empty.
pub open spec fn beside(left: Seq<Seq<char>>, right: Seq<Seq<char>>) -> Seq<Seq<char>> {
    let height = if left.len() < right.len() {
        right.len() as int
    } else {
        left.len() as int
    };
    Seq::new(
        height as nat,
        |i: int|
            (if raised(left, height)[i].len() == 0 {
                raised(left, height)[i]
            } else {
                raised(left, height)[i] + "  "@
            }) + raised(right, height)[i],
    )
}

/// The blocks side by side, from left to right.
pub open spec fn joined(blocks: Seq<Seq<Seq<char>>>) -> Seq<Seq<char>>
    decreases blocks.len(),
{
    if blocks.len() == 0 {
        Seq::empty()
    } else {
        beside(joined(blocks.drop_last()), blocks.last())
    }
}

/// The name of a rule as it stands beside the rule: a space and the name in brackets.
pub open spec fn rule_tag(rule: Seq<char>) -> Seq<char> {
    " ["@ + rule + "]"@
}

/// The width that the name of the rule of the only premise takes, and zero where there is
/// not exactly one premise.
pub open spec fn premise_rule_width(top: Seq<Seq<char>>, premises: int) -> usize {
    if premises == 1 {
        text_width(skip_leading(top[top.len() - 2], '─'))
    } else {
        0
    }
}

/// The width of the rule under the premises `top` and over the conclusion `bottom`.
pub open spec fn rule_width(top: Seq<Seq<char>>, premises: int, bottom: Seq<char>) -> usize {
    width_max(
        width_diff(first_width(top), premise_rule_width(top, premises)),
        text_width(bottom),
    )
}

/// The width of the column beside the rule, which holds the name of the rule.
pub open spec fn tag_width(top: Seq<Seq<char>>, premises: int, rule: Seq<char>) -> usize {
    width_max(premise_rule_width(top, premises), text_width(rule_tag(rule)))
}

/// A line in a field of `inner` columns, flush right, and then in a field of `outer`
/// columns, flush left.
pub open spec fn framed(line: Seq<char>, inner: usize, outer: usize) -> Seq<char> {
    pad_text(pad_text(line, inner, Align::Right), outer, Align::Left)
}

/// The lines of an inference step: the lines `top` of its premises; under them a rule as
/// wide as the premises without the name of their rule, or as the conclusion if that is
/// wider, with the name of the rule beside it; and under the rule the conclusion, centred.
/// Every line is padded to the width of the rule and the name.
pub open spec fn step_lines(
    top: Seq<Seq<char>>,
    premises: int,
    bottom: Seq<char>,
    rule: Seq<char>,
) -> Seq<Seq<char>> {
    let n = rule_width(top, premises, bottom);
    let inner = width_sum(n, premise_rule_width(top, premises));
    let outer = width_sum(n, tag_width(top, premises, rule));
    top.map_values(|line: Seq<char>| framed(line, inner, outer)).push(
        rule_text(n as int) + pad_text(rule_tag(rule), tag_width(top, premises, rule), Align::Left),
    ).push(pad_text(pad_text(bottom, n, Align::Center), outer, Align::Left))
}

/// The lines of the derivation of each premise.
pub open spec fn premise_blocks(p: ProofModel) -> Seq<Seq<Seq<char>>>
    decreases p, 0nat,
{
    Seq::new(
        p.premises.len(),
        |i: int|
            if 0 <= i < p.premises.len() {
                proof_lines_of(p.premises[i])
            } else {
                Seq::empty()
            },
    )
}

/// The lines of a derivation: the derivations of its premises side by side, and the last
/// step under them.
pub open spec fn proof_lines_of(p: ProofModel) -> Seq<Seq<char>>
    decreases p, 1nat,
{
    step_lines(
        joined(premise_blocks(p)),
        p.premises.len() as int,
        judgement_text(p.conclusion),
        p.rule,
    )
}

/// The lines, each but the last followed by a line feed.
pub open spec fn lines_text(lines: Seq<Seq<char>>) -> Seq<char>
    decreases lines.len(),
{
    if lines.len() == 0 {
        Seq::empty()
    } else if lines.len() == 1 {
        lines[0]
    } else {
        lines_text(lines.drop_last()) + "\n"@ + lines.last()
    }
}

/// The text of a derivation.
pub open spec fn proof_text(p: ProofModel) -> Seq<char> {
    lines_text(proof_lines_of(p))
}

/// The text of a judgement as an inference step of its own: the bindings, two spaces
/// apart; under them a rule as wide as the wider of the two other lines; and under the
/// rule the typing.
pub open spec fn stacked_text(j: JudgementModel) -> Seq<char> {
    let top = bindings_text(j.lhs, "  "@);
    let bottom = typing_text(j);
    top + "\n"@ + rule_text(width_max(text_width(top), text_width(bottom)) as int) + "\n"@
        + bottom
}

/// The views of a list of lines.
pub open spec fn texts(lines: Seq<String>) -> Seq<Seq<char>> {
    lines.map_values(|line: String| line@)
}

/// A text made of `n` copies of the one character of `unit`.
fn repeated(unit: &str, n: usize) -> (text: String)
    requires
        unit@.len() == 1,
    ensures
        text@ == Seq::new(n as nat, |i: int| unit@[0]),
{
    let mut text = String::new();
    let mut i: usize = 0;
    while i < n
        invariant
            i <= n,
            unit@.len() == 1,
            text@ == Seq::new(i as nat, |j: int| unit@[0]),
        decreases n - i,
    {
        text.append(unit);
        assert(text@ =~= Seq::new((i + 1) as nat, |j: int| unit@[0]));
        i = i + 1;
    }
    text
}

/// A text of `n` spaces.
fn blank(n: usize) -> (text: String)
    ensures
        text@ == spaces(n as int),
{
    proof {
        reveal_strlit(" ");
    }
    let text = repeated(" ", n);
    assert(text@ =~= spaces(n as int));
    text
}

/// A horizontal rule of `n` columns.
fn ruled(n: usize) -> (text: String)
    ensures
        text@ == rule_text(n as int),
{
    proof {
        reveal_strlit("─");
    }
    let text = repeated("─", n);
    assert(text@ =~= rule_text(n as int));
    text
}

/// The width of the first line, or of the empty text where there is no line.
fn width_of_first(lines: &Vec<String>) -> (width: usize)
    ensures
        width == first_width(texts(lines@)),
{
    if lines.len() == 0 {
        proof {
            reveal_strlit("");
            assert(""@ =~= Seq::<char>::empty());
        }
        measure("")
    } else {
        measure(lines[0].as_str())
    }
}

/// The block with blank lines above it, to the height `height`.
fn raise(block: &Vec<String>, height: usize) -> (result: Vec<String>)
    requires
        block@.len() <= height,
    ensures
        result@.len() == height,
        texts(result@) == raised(texts(block@), height as int),
{
    let width = width_of_first(block);
    let missing = height - block.len();
    let mut result: Vec<String> = Vec::new();
    let mut i: usize = 0;
    while i < missing
        invariant
            i <= missing,
            result@.len() == i,
            forall|j: int| 0 <= j < i ==> (#[trigger] result@[j])@ == spaces(width as int),
        decreases missing - i,
    {
        result.push(blank(width));
        i = i + 1;
    }
    let mut k: usize = 0;
    while k < block.len()
        invariant
            k <= block.len(),
            missing + block.len() == height,
            result@.len() == missing + k,
            forall|j: int| 0 <= j < missing ==> (#[trigger] result@[j])@ == spaces(width as int),
            forall|j: int| 0 <= j < k ==> (#[trigger] result@[missing + j])@ == block@[j]@,
        decreases block.len() - k,
    {
        result.push(block[k].clone());
        k = k + 1;
    }
    proof {
        let goal = raised(texts(block@), height as int);
        assert(goal.len() == height);
        assert forall|j: int| 0 <= j < height implies texts(result@)[j] == goal[j] by {
            if j < missing {
                assert(result@[j]@ == spaces(width as int));
            } else {
                assert(result@[missing + (j - missing)]@ == block@[j - missing]@);
                assert(texts(block@)[j - missing] == block@[j - missing]@);
            }
        }
        assert(texts(result@) =~= goal);
    }
    result
}

/// The blocks side by side, from left to right, aligned at the bottom.
pub fn join(blocks: &Vec<Vec<String>>) -> (lines: Vec<String>)
    ensures
        texts(lines@) == joined(blocks@.map_values(|block: Vec<String>| texts(block@))),
{
    let ghost all = blocks@.map_values(|block: Vec<String>| texts(block@));
    let mut lines: Vec<String> = Vec::new();
    assert(texts(lines@) =~= joined(all.take(0)));
    let mut b: usize = 0;
    while b < blocks.len()
        invariant
            b <= blocks.len(),
            all == blocks@.map_values(|block: Vec<String>| texts(block@)),
            texts(lines@) == joined(all.take(b as int)),
        decreases blocks.len() - b,
    {
        let block = &blocks[b];
        let height = if lines.len() < block.len() {
            block.len()
        } else {
            lines.len()
        };
        let left = raise(&lines, height);
        let right = raise(block, height);
        let ghost before = texts(lines@);
        assert(beside(before, texts(block@)).len() == height);
        let mut next: Vec<String> = Vec::new();
        let mut i: usize = 0;
        while i < height
            invariant
                i <= height,
                left@.len() == height,
                right@.len() == height,
                next@.len() == i,
                texts(left@) == raised(before, height as int),
                texts(right@) == raised(texts(block@), height as int),
                beside(before, texts(block@)).len() == height,
                forall|j: int|
                    0 <= j < i ==> (#[trigger] next@[j])@ == beside(before, texts(block@))[j],
            decreases height - i,
        {
            let mut line = left[i].clone();
            if !line.as_str().is_empty() {
                line.append("  ");
            }
            line.append(right[i].as_str());
            proof {
                assert(texts(left@)[i as int] == left@[i as int]@);
                assert(texts(right@)[i as int] == right@[i as int]@);
                assert(beside(before, texts(block@)).len() == height);
                assert(line@ == beside(before, texts(block@))[i as int]);
            }
            next.push(line);
            i = i + 1;
        }
        proof {
            assert(texts(left@).len() == height);
            assert(all.take(b + 1).drop_last() =~= all.take(b as int));
            assert(all.take(b + 1).last() == texts(block@));
            assert(texts(next@) =~= beside(before, texts(block@)));
        }
        lines = next;
        b = b + 1;
    }
    assert(all.take(blocks@.len() as int) =~= all);
    lines
}


/// A derivation has at least two lines: its rule and its conclusion.
pub proof fn lemma_proof_lines_len(p: ProofModel)
    ensures
        proof_lines_of(p).len() >= 2,
{
}

/// The lines of one inference step under the lines of its premises.
fn step(top: &Vec<String>, premises: usize, bottom: String, name: &str) -> (lines: Vec<String>)
    requires
        premises == 1 ==> top@.len() >= 2,
    ensures
        texts(lines@) == step_lines(texts(top@), premises as int, bottom@, name@),
{
    let ghost above = texts(top@);
    let top_rule_width = if premises == 1 {
        assert(above[top@.len() - 2] == top@[top@.len() - 2]@);
        measure(trim_rule(top[top.len() - 2].as_str()))
    } else {
        0
    };
    let top_width = width_of_first(top).saturating_sub(top_rule_width);
    let bottom_width = measure(bottom.as_str());
    let n = if top_width < bottom_width {
        bottom_width
    } else {
        top_width
    };
    let inner = n.saturating_add(top_rule_width);
    let mut tag = String::from_str(" [");
    tag.append(name);
    tag.append("]");
    let tag_cols = measure(tag.as_str());
    let beside_rule = if top_rule_width < tag_cols {
        tag_cols
    } else {
        top_rule_width
    };
    let outer = n.saturating_add(beside_rule);
    let mut lines: Vec<String> = Vec::new();
    let mut i: usize = 0;
    while i < top.len()
        invariant
            i <= top.len(),
            lines@.len() == i,
            forall|j: int|
                0 <= j < i ==> (#[trigger] lines@[j])@ == framed(top@[j]@, inner, outer),
        decreases top.len() - i,
    {
        let flush_right = pad(top[i].as_str(), inner, Align::Right);
        lines.push(pad(flush_right.as_str(), outer, Align::Left));
        i = i + 1;
    }
    let mut under = ruled(n);
    under.append(pad(tag.as_str(), beside_rule, Align::Left).as_str());
    let centred = pad(bottom.as_str(), n, Align::Center);
    let last = pad(centred.as_str(), outer, Align::Left);
    proof {
        let framed_top = above.map_values(|line: Seq<char>| framed(line, inner, outer));
        assert(texts(lines@) =~= framed_top);
    }
    let ghost head = texts(lines@);
    lines.push(under);
    let ghost mid = texts(lines@);
    assert(mid =~= head.push(under@));
    lines.push(last);
    assert(texts(lines@) =~= mid.push(last@));
    lines
}

/// The lines of the derivation.
pub fn proof_lines(p: &Proof) -> (lines: Vec<String>)
    ensures
        texts(lines@) == proof_lines_of(p@),
    decreases p,
{
    let mut blocks: Vec<Vec<String>> = Vec::new();
    let mut i: usize = 0;
    while i < p.premises.len()
        invariant
            i <= p.premises.len(),
            blocks@.len() == i,
            forall|j: int|
                0 <= j < i ==> texts((#[trigger] blocks@[j])@) == proof_lines_of(
                    p.premises@[j].model(),
                ),
        decreases p.premises.len() - i,
    {
        blocks.push(proof_lines(&p.premises[i]));
        i = i + 1;
    }
    let top = join(&blocks);
    proof {
        let all = blocks@.map_values(|block: Vec<String>| texts(block@));
        assert(p@.premises.len() == p.premises@.len());
        assert(all =~= premise_blocks(p@));
        if p.premises@.len() == 1 {
            lemma_proof_lines_len(p@.premises[0]);
            assert(all.drop_last() =~= Seq::<Seq<Seq<char>>>::empty());
            assert(joined(all.drop_last()).len() == 0);
            assert(joined(all).len() == all[0].len());
        }
    }
    step(&top, p.premises.len(), p.conclusion.to_string(), p.rule)
}

/// The lines, each but the last followed by a line feed.
fn lines_to_string(lines: &Vec<String>) -> (text: String)
    ensures
        text@ == lines_text(texts(lines@)),
{
    let ghost all = texts(lines@);
    if lines.len() == 0 {
        return String::new();
    }
    let mut text = lines[0].clone();
    assert(all.take(1) =~= seq![all[0]]);
    let mut i: usize = 1;
    while i < lines.len()
        invariant
            1 <= i <= lines.len(),
            all == texts(lines@),
            text@ == lines_text(all.take(i as int)),
        decreases lines.len() - i,
    {
        text.append("\n");
        text.append(lines[i].as_str());
        assert(all.take(i + 1).drop_last() =~= all.take(i as int));
        i = i + 1;
    }
    assert(all.take(lines@.len() as int) =~= all);
    text
}

impl Proof {
    /// The text of the derivation: its lines, one under the other.
    pub fn to_string(&self) -> (text: String)
        ensures
            text@ == proof_text(self@),
    {
        lines_to_string(&proof_lines(self))
    }
}

impl Judgement {
    /// The text of the judgement as an inference step of its own, on three lines.
    pub fn to_stacked_string(&self) -> (text: String)
        ensures
            text@ == stacked_text(self@),
    {
        let top = super::render::bindings_to_string(&self.lhs, "  ");
        let bottom = self.typing_to_string();
        let top_cols = measure(top.as_str());
        let bottom_cols = measure(bottom.as_str());
        let n = if top_cols < bottom_cols {
            bottom_cols
        } else {
            top_cols
        };
        let mut text = top;
        text.append("\n");
        text.append(ruled(n).as_str());
        text.append("\n");
        text.append(bottom.as_str());
        text
    }
}

} // verus!
