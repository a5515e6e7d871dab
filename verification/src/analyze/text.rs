//! The reports as text.

use super::representatives::RepresentativeReport;
use super::ThresholdReport;
use super::TrustClass;
use crate::fixed::SCALE;
use vstd::prelude::*;

verus! {

/// The character of the decimal digit `d`.
pub open spec fn digit(d: int) -> char {
    (d + 48) as char
}

/// The decimal digits of `n`, without leading zeros.
pub open spec fn decimal(n: nat) -> Seq<char>
    decreases n,
{
    if n < 10 {
        seq![digit(n as int)]
    } else {
        decimal(n / 10).push(digit((n % 10) as int))
    }
}

/// The last `width` decimal digits of `n`, with leading zeros.
pub open spec fn padded(n: nat, width: nat) -> Seq<char>
    decreases width,
{
    if width == 0 {
        Seq::empty()
    } else {
        padded(n / 10, (width - 1) as nat).push(digit((n % 10) as int))
    }
}

/// The last `width` decimal digits of `n` without the zeros at their end.
pub open spec fn trimmed(n: nat, width: nat) -> Seq<char>
    decreases width,
{
    if width == 0 {
        Seq::empty()
    } else if n % 10 == 0 {
        trimmed(n / 10, (width - 1) as nat)
    } else {
        padded(n, width)
    }
}

/// A fixed-point number in decimal notation: a minus sign where it is
/// negative, its whole part, and, where it has one, a point and its
/// fraction without zeros at the end. A number without fraction ends in
/// `.0` where `pointed` is set.
pub open spec fn fixed_text(x: int, pointed: bool) -> Seq<char> {
    let size = if x < 0 { -x } else { x };
    let sign = if x < 0 { seq!['-'] } else { Seq::<char>::empty() };
    let whole = decimal((size / (SCALE as int)) as nat);
    let fraction = (size % (SCALE as int)) as nat;
    if fraction != 0 {
        sign + whole + seq!['.'] + trimmed(fraction, 6)
    } else if pointed {
        sign + whole + seq!['.', '0']
    } else {
        sign + whole
    }
}

/// The quotient of `num` by a positive `den`, rounded to the nearest whole
/// number, and to the even one of two that are equally near.
pub open spec fn rounded(num: nat, den: nat) -> nat {
    let q = num / den;
    let r = num % den;
    if 2 * r > den || (2 * r == den && q % 2 == 1) {
        q + 1
    } else {
        q
    }
}

/// The share of `part` in `whole` in percent with two decimals; zero
/// where `whole` is zero.
pub open spec fn percent_text(part: nat, whole: nat) -> Seq<char> {
    let hundredths = if whole == 0 { 0 } else { rounded(part * 10000, whole) };
    decimal(hundredths / 100) + seq!['.'] + padded(hundredths % 100, 2)
}

/// The items, each two separated by a comma and a space.
pub open spec fn joined(items: Seq<Seq<char>>) -> Seq<char>
    decreases items.len(),
{
    if items.len() == 0 {
        Seq::empty()
    } else if items.len() == 1 {
        items[0]
    } else {
        joined(items.drop_last()) + seq![',', ' '] + items.last()
    }
}

/// The list of the items in square brackets.
pub open spec fn list_text(items: Seq<Seq<char>>) -> Seq<char> {
    seq!['['] + joined(items) + seq![']']
}

/// The text of one class of the threshold analysis.
pub open spec fn class_text(relation: Seq<char>, score: int, class: TrustClass) -> Seq<char> {
    "\nNodes with trust score "@ + relation + " "@ + fixed_text(score, false) + ": "@ + decimal(
        class.count as nat,
    ) + " nodes.\n                \nPercentage with high clustering: "@ + percent_text(
        class.high_clustering_count as nat,
        class.count as nat,
    ) + "%.\n                \nPercentage with high centrality: "@ + percent_text(
        class.high_centrality_count as nat,
        class.count as nat,
    ) + "%."@
}

/// The text of the threshold analysis.
pub open spec fn threshold_text(report: ThresholdReport) -> Seq<char> {
    class_text(">="@, report.high_score as int, report.high_trust) + "\n                "@
        + class_text("<="@, report.low_score as int, report.low_trust)
}

/// The text of the choice of representatives.
pub open spec fn representative_text(report: RepresentativeReport) -> Seq<char> {
    "\nSelected Representatives: "@ + list_text(
        report.representatives@.map_values(|n: usize| decimal(n as nat)),
    ) + "\n            \nThe number of representatives is "@ + percent_text(
        report.representatives@.len(),
        report.total_nodes as nat,
    ) + "% of total nodes.\n            \nAverage trust scores of each representative: "@
        + list_text(report.trust_scores@.map_values(|t: i128| fixed_text(t as int, true)))
        + "\n            \nAverage trust scores of all representatives: "@ + fixed_text(
        report.average_trust_score as int,
        false,
    ) + "\n            \nAverage clustering coefficient of representatives: "@ + fixed_text(
        report.average_clustering as int,
        false,
    )
}

/// `String::push`: the character is put at the end of the text.
#[verifier::external_body]
fn push_char(text: &mut String, c: char)
    ensures
        final(text)@ == old(text)@.push(c),
{
    text.push(c);
}

/// `String::push_str`: the piece is put at the end of the text.
#[verifier::external_body]
fn push_text(text: &mut String, piece: &str)
    ensures
        final(text)@ == old(text)@ + piece@,
{
    text.push_str(piece);
}

fn push_digit(text: &mut String, d: u128)
    requires
        d < 10,
    ensures
        final(text)@ == old(text)@.push(digit(d as int)),
{
    let code: u8 = d as u8;
    push_char(text, (code + 48) as char);
}

fn push_decimal(text: &mut String, n: u128)
    ensures
        final(text)@ == old(text)@ + decimal(n as nat),
    decreases n,
{
    if n >= 10 {
        push_decimal(text, n / 10);
    }
    push_digit(text, n % 10);
}

fn push_padded(text: &mut String, n: u128, width: u8)
    ensures
        final(text)@ == old(text)@ + padded(n as nat, width as nat),
    decreases width,
{
    if width > 0 {
        push_padded(text, n / 10, width - 1);
        push_digit(text, n % 10);
    }
}

fn push_trimmed(text: &mut String, n: u128, width: u8)
    ensures
        final(text)@ == old(text)@ + trimmed(n as nat, width as nat),
    decreases width,
{
    if width > 0 {
        if n % 10 == 0 {
            push_trimmed(text, n / 10, width - 1);
        } else {
            push_padded(text, n, width);
        }
    }
}

fn push_fixed(text: &mut String, x: i128, pointed: bool)
    ensures
        final(text)@ == old(text)@ + fixed_text(x as int, pointed),
{
    let scale: u128 = 1_000_000;
    let size: u128 = if x < 0 {
        ((-(x + 1)) as u128) + 1
    } else {
        x as u128
    };
    if x < 0 {
        push_char(text, '-');
    }
    push_decimal(text, size / scale);
    let fraction = size % scale;
    if fraction != 0 {
        push_char(text, '.');
        push_trimmed(text, fraction, 6);
    } else if pointed {
        push_char(text, '.');
        push_char(text, '0');
    }
}

fn push_percent(text: &mut String, part: usize, whole: usize)
    ensures
        final(text)@ == old(text)@ + percent_text(part as nat, whole as nat),
{
    let hundredths: u128 = if whole == 0 {
        0
    } else {
        let num: u128 = (part as u128) * 10000;
        let den: u128 = whole as u128;
        let q = num / den;
        let r = num % den;
        if 2 * r > den || (2 * r == den && q % 2 == 1) {
            q + 1
        } else {
            q
        }
    };
    push_decimal(text, hundredths / 100);
    push_char(text, '.');
    push_padded(text, hundredths % 100, 2);
}

fn push_class(text: &mut String, relation: &str, score: i128, class: &TrustClass)
    ensures
        final(text)@ == old(text)@ + class_text(relation@, score as int, *class),
{
    push_text(text, "\nNodes with trust score ");
    push_text(text, relation);
    push_text(text, " ");
    push_fixed(text, score, false);
    push_text(text, ": ");
    push_decimal(text, class.count as u128);
    push_text(text, " nodes.\n                \nPercentage with high clustering: ");
    push_percent(text, class.high_clustering_count, class.count);
    push_text(text, "%.\n                \nPercentage with high centrality: ");
    push_percent(text, class.high_centrality_count, class.count);
    push_text(text, "%.");
}

fn push_nodes(text: &mut String, nodes: &Vec<usize>)
    ensures
        final(text)@ == old(text)@ + list_text(nodes@.map_values(|n: usize| decimal(n as nat))),
{
    let ghost items = nodes@.map_values(|n: usize| decimal(n as nat));
    push_char(text, '[');
    let ghost opened = text@;
    let mut i: usize = 0;
    while i < nodes.len()
        invariant
            i <= nodes.len(),
            items == nodes@.map_values(|n: usize| decimal(n as nat)),
            text@ == opened + joined(items.take(i as int)),
        decreases nodes.len() - i,
    {
        if i > 0 {
            push_text(text, ", ");
        }
        push_decimal(text, nodes[i] as u128);
        proof {
            reveal_strlit(", ");
            let next = items.take(i as int + 1);
            assert(next.drop_last() =~= items.take(i as int));
        }
        i += 1;
    }
    push_char(text, ']');
    proof {
        assert(items.take(i as int) =~= items);
    }
}

fn push_scores(text: &mut String, scores: &Vec<i128>)
    ensures
        final(text)@ == old(text)@ + list_text(
            scores@.map_values(|t: i128| fixed_text(t as int, true)),
        ),
{
    let ghost items = scores@.map_values(|t: i128| fixed_text(t as int, true));
    push_char(text, '[');
    let ghost opened = text@;
    let mut i: usize = 0;
    while i < scores.len()
        invariant
            i <= scores.len(),
            items == scores@.map_values(|t: i128| fixed_text(t as int, true)),
            text@ == opened + joined(items.take(i as int)),
        decreases scores.len() - i,
    {
        if i > 0 {
            push_text(text, ", ");
        }
        push_fixed(text, scores[i], true);
        proof {
            reveal_strlit(", ");
            let next = items.take(i as int + 1);
            assert(next.drop_last() =~= items.take(i as int));
        }
        i += 1;
    }
    push_char(text, ']');
    proof {
        assert(items.take(i as int) =~= items);
    }
}

impl ThresholdReport {
    /// The report as text: for each class the threshold and the number of
    /// its nodes, and the two shares in percent with two decimals.
    pub fn to_text(&self) -> (text: String)
        ensures
            text@ == threshold_text(*self),
    {
        let mut text = String::new();
        push_class(&mut text, ">=", self.high_score, &self.high_trust);
        push_text(&mut text, "\n                ");
        push_class(&mut text, "<=", self.low_score, &self.low_trust);
        text
    }
}

impl RepresentativeReport {
    /// The report as text: the representatives, their share among all
    /// nodes in percent, the trust score of each, and the two means.
    pub fn to_text(&self) -> (text: String)
        ensures
            text@ == representative_text(*self),
    {
        let mut text = String::new();
        push_text(&mut text, "\nSelected Representatives: ");
        push_nodes(&mut text, &self.representatives);
        push_text(&mut text, "\n            \nThe number of representatives is ");
        push_percent(&mut text, self.representatives.len(), self.total_nodes);
        push_text(
            &mut text,
            "% of total nodes.\n            \nAverage trust scores of each representative: ",
        );
        push_scores(&mut text, &self.trust_scores);
        push_text(&mut text, "\n            \nAverage trust scores of all representatives: ");
        push_fixed(&mut text, self.average_trust_score, false);
        push_text(&mut text, "\n            \nAverage clustering coefficient of representatives: ");
        push_fixed(&mut text, self.average_clustering, false);
        text
    }
}

} // verus!
