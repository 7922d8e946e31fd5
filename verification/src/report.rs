//! The result of a calculation as lines of text.

use vstd::prelude::*;
use crate::antenna::{texts, AntennaView};
use crate::text::{decimal_string, decimal_text};
use crate::usecase::{Output, SignalStrength};
use crate::util::{format_strength, metric_text, strength_text, MetricPrefix};
use crate::vessel::{tally_views, EndpointInfo};

verus! {

/// `n` spaces.
pub open spec fn spaces(n: nat) -> Seq<char> {
    Seq::new(n, |i: int| ' ')
}

/// `s`, and spaces after it where it is shorter than `width`.
pub open spec fn pad_right(s: Seq<char>, width: nat) -> Seq<char> {
    if s.len() >= width {
        s
    } else {
        s + spaces((width - s.len()) as nat)
    }
}

/// `s`, and spaces before it where it is shorter than `width`.
pub open spec fn pad_left(s: Seq<char>, width: nat) -> Seq<char> {
    if s.len() >= width {
        s
    } else {
        spaces((width - s.len()) as nat) + s
    }
}

/// The line of one entry of a tally: the name after two indents, with the
/// count and an "x" before it where the count is not 1.
pub open spec fn entry_line(indent: Seq<char>, entry: (nat, AntennaView)) -> Seq<char> {
    if entry.0 == 1 {
        indent + indent + entry.1.name
    } else {
        indent + indent + decimal_text(entry.0) + "x "@ + entry.1.name
    }
}

/// The lines of one side: its kind and a colon, then a line for each entry.
pub open spec fn endpoint_text(
    kind: Seq<char>,
    indent: Seq<char>,
    entries: Seq<(nat, AntennaView)>,
) -> Seq<Seq<char>> {
    seq![kind + ":"@] + entries.map_values(|e: (nat, AntennaView)| entry_line(indent, e))
}

/// The row of one stretch: its name in 25 places, and the two strengths in 8
/// places each.
pub open spec fn row_text(s: SignalStrength) -> Seq<char> {
    "| "@ + pad_right(s.section@, 25) + " | "@ + pad_left(strength_text(s.at_min), 8) + " | "@
        + pad_left(strength_text(s.at_max), 8) + " |"@
}

/// The line of the reach.
pub open spec fn reach_text(max_distance: u64) -> Seq<char> {
    "Max distance: "@ + metric_text(max_distance as nat) + "m"@
}

/// The two lines above the rows.
pub open spec fn table_head() -> Seq<Seq<char>> {
    seq![
        "|          Section          |   @Min   |   @Max   |"@,
        "|:--------------------------|---------:|---------:|"@,
    ]
}

/// The whole report: both sides, an empty line, the reach, an empty line,
/// and the table of the strengths.
pub open spec fn report_text(out: Output, indent: Seq<char>) -> Seq<Seq<char>> {
    seq!["From:"@] + endpoint_text(
        out.endpoints.from.endpoint_type@,
        indent,
        tally_views(out.endpoints.from.antennas@),
    ) + seq!["To:"@] + endpoint_text(
        out.endpoints.to.endpoint_type@,
        indent,
        tally_views(out.endpoints.to.antennas@),
    ) + seq![""@, reach_text(out.max_distance), ""@] + table_head()
        + out.signal_strengthes@.map_values(|s: SignalStrength| row_text(s))
}

/// `n` spaces appended to `r`.
fn append_spaces(r: &mut String, n: usize)
    ensures
        final(r)@ == old(r)@ + spaces(n as nat),
{
    let ghost before = r@;
    let mut i: usize = 0;
    proof {
        reveal_strlit(" ");
        assert(before + spaces(0) =~= before);
    }
    while i < n
        invariant
            i <= n,
            r@ == before + spaces(i as nat),
            " "@ == seq![' '],
        decreases n - i,
    {
        r.append(" ");
        assert(r@ =~= before + spaces((i + 1) as nat));
        i += 1;
    }
}

/// `s` with spaces after it up to `width` places.
pub fn padded_right(s: &str, width: usize) -> (r: String)
    ensures
        r@ == pad_right(s@, width as nat),
{
    let n: usize = s.unicode_len();
    let mut r = String::from_str(s);
    if n < width {
        append_spaces(&mut r, width - n);
    }
    r
}

/// `s` with spaces before it up to `width` places.
pub fn padded_left(s: &str, width: usize) -> (r: String)
    ensures
        r@ == pad_left(s@, width as nat),
{
    let n: usize = s.unicode_len();
    let mut r = String::new();
    if n < width {
        append_spaces(&mut r, width - n);
        assert(r@ =~= spaces((width - n) as nat));
    }
    r.append(s);
    assert(r@ =~= pad_left(s@, width as nat));
    r
}

/// The lines of one side: see `endpoint_text`.
pub fn endpoint_lines(info: &EndpointInfo, indent: &str) -> (r: Vec<String>)
    ensures
        texts(r@) == endpoint_text(info.endpoint_type@, indent@, tally_views(info.antennas@)),
{
    let ghost entries = tally_views(info.antennas@);
    let ghost wanted = endpoint_text(info.endpoint_type@, indent@, entries);
    let mut out: Vec<String> = Vec::new();
    out.push(String::from_str(info.endpoint_type).concat(":"));
    let mut i: usize = 0;
    while i < info.antennas.len()
        invariant
            i <= info.antennas.len(),
            entries == tally_views(info.antennas@),
            wanted == endpoint_text(info.endpoint_type@, indent@, entries),
            out.len() == i + 1,
            forall|j: int| 0 <= j < out.len() ==> (#[trigger] out[j])@ == wanted[j],
        decreases info.antennas.len() - i,
    {
        let entry = &info.antennas[i];
        let mut line = String::from_str(indent);
        line.append(indent);
        if entry.0 != 1 {
            let count = decimal_string(entry.0 as u128);
            line.append(count.as_str());
            line.append("x ");
        }
        line.append(entry.1.name.as_str());
        proof {
            assert(entries[i as int] == (entry.0 as nat, entry.1@));
            assert(wanted[i + 1] == entry_line(indent@, entries[i as int]));
            assert(line@ =~= entry_line(indent@, entries[i as int]));
        }
        out.push(line);
        i += 1;
    }
    assert(texts(out@) =~= wanted);
    out
}

/// The row of one stretch: see `row_text`.
pub fn table_row(s: &SignalStrength) -> (r: String)
    ensures
        r@ == row_text(*s),
{
    let mut r = String::from_str("| ");
    r.append(padded_right(s.section.as_str(), 25).as_str());
    r.append(" | ");
    r.append(padded_left(format_strength(s.at_min).as_str(), 8).as_str());
    r.append(" | ");
    r.append(padded_left(format_strength(s.at_max).as_str(), 8).as_str());
    r.append(" |");
    r
}

/// All of `from` appended to `to`.
fn append_lines(to: &mut Vec<String>, from: Vec<String>)
    ensures
        texts(final(to)@) == texts(old(to)@) + texts(from@),
{
    let ghost before = texts(to@);
    let mut i: usize = 0;
    assert(texts(from@).take(0) =~= Seq::<Seq<char>>::empty());
    assert(before + Seq::<Seq<char>>::empty() =~= before);
    while i < from.len()
        invariant
            i <= from.len(),
            texts(to@) == before + texts(from@).take(i as int),
        decreases from.len() - i,
    {
        let ghost so_far = texts(to@);
        to.push(from[i].clone());
        assert(texts(to@) =~= so_far.push(from@[i as int]@));
        assert(texts(to@) =~= before + texts(from@).take(i + 1));
        i += 1;
    }
    assert(texts(from@).take(i as int) =~= texts(from@));
}

/// The whole report: see `report_text`.
pub fn report_lines(out: &Output, indent: &str) -> (r: Vec<String>)
    ensures
        texts(r@) == report_text(*out, indent@),
{
    let mut lines: Vec<String> = Vec::new();
    lines.push(String::from_str("From:"));
    assert(texts(lines@) =~= seq!["From:"@]);
    append_lines(&mut lines, endpoint_lines(&out.endpoints.from, indent));
    let ghost part = texts(lines@);
    lines.push(String::from_str("To:"));
    assert(texts(lines@) =~= part + seq!["To:"@]);
    append_lines(&mut lines, endpoint_lines(&out.endpoints.to, indent));
    let ghost part = texts(lines@);
    let mut reach = String::from_str("Max distance: ");
    reach.append(MetricPrefix(out.max_distance).to_string().as_str());
    reach.append("m");
    lines.push(String::new());
    lines.push(reach);
    lines.push(String::new());
    proof {
        reveal_strlit("");
        assert(""@ =~= Seq::<char>::empty());
        assert(texts(lines@) =~= part + seq![""@, reach_text(out.max_distance), ""@]);
    }
    let ghost part = texts(lines@);
    lines.push(String::from_str("|          Section          |   @Min   |   @Max   |"));
    lines.push(String::from_str("|:--------------------------|---------:|---------:|"));
    assert(texts(lines@) =~= part + table_head());
    let ghost head = texts(lines@);
    let ghost rows = out.signal_strengthes@.map_values(|s: SignalStrength| row_text(s));
    let mut i: usize = 0;
    assert(head + rows.take(0) =~= head);
    while i < out.signal_strengthes.len()
        invariant
            i <= out.signal_strengthes.len(),
            rows == out.signal_strengthes@.map_values(|s: SignalStrength| row_text(s)),
            texts(lines@) == head + rows.take(i as int),
        decreases out.signal_strengthes.len() - i,
    {
        let ghost so_far = texts(lines@);
        let row = table_row(&out.signal_strengthes[i]);
        lines.push(row);
        assert(texts(lines@) =~= so_far.push(rows[i as int]));
        assert(texts(lines@) =~= head + rows.take(i + 1));
        i += 1;
    }
    assert(rows.take(i as int) =~= rows);
    lines
}

} // verus!
