//! Layout of the calculation preview: the terms of a sum, four to a row, and
//! a fraction drawn with a bar under its numerator.

use vstd::prelude::*;
use vstd::utf8::encode_utf8;
use crate::edit::{ids_of, lemma_ids_push};
use crate::text::{decimal, decimal_text};
use crate::topology::{join, join_with};

verus! {

/// The terms joined by ` + `, four to a row; rows are joined by ` +` and a
/// line feed followed by six spaces.
pub open spec fn preview_rows(terms: Seq<Seq<char>>) -> Seq<char>
    decreases terms.len(),
{
    if terms.len() <= 4 {
        join_with(terms, " + "@)
    } else {
        join_with(terms.take(4), " + "@) + " +\n      "@ + preview_rows(terms.skip(4))
    }
}

/// Joins the terms of a sum for the preview: four per row.
pub fn join_preview_terms(terms: &Vec<String>) -> (r: String)
    ensures
        r@ == preview_rows(ids_of(terms@)),
{
    let ghost all = ids_of(terms@);
    let n = terms.len();
    let mut r = String::new();
    let mut row_start: usize = 0;
    assert(all.skip(0) =~= all);
    assert(r@ + preview_rows(all) =~= preview_rows(all));
    // `r` holds the rows of the terms before `row_start`, each followed by
    // the row separator; the rest is `preview_rows` of the terms left.
    while n - row_start > 4
        invariant
            n == terms@.len(),
            all == ids_of(terms@),
            row_start <= n,
            preview_rows(all) == r@ + preview_rows(all.skip(row_start as int)),
        decreases n - row_start,
    {
        let ghost rest = all.skip(row_start as int);
        let mut row: Vec<String> = Vec::new();
        let mut k: usize = row_start;
        while k < row_start + 4
            invariant
                row_start + 4 <= n,
                n == terms@.len(),
                all == ids_of(terms@),
                row_start <= k <= row_start + 4,
                ids_of(row@) == all.subrange(row_start as int, k as int),
            decreases row_start + 4 - k,
        {
            let ghost r0 = row@;
            let c = terms[k].clone();
            row.push(c);
            proof {
                lemma_ids_push(r0, c);
                assert(all.subrange(row_start as int, k + 1) =~= all.subrange(row_start as int, k as int).push(c@));
            }
            k = k + 1;
        }
        assert(rest.take(4) =~= all.subrange(row_start as int, row_start + 4));
        assert(rest.skip(4) =~= all.skip(row_start + 4));
        let joined = join(&row, " + ");
        r.append(joined.as_str());
        r.append(" +\n      ");
        row_start = row_start + 4;
    }
    let mut last: Vec<String> = Vec::new();
    let mut k: usize = row_start;
    while k < n
        invariant
            n == terms@.len(),
            all == ids_of(terms@),
            row_start <= k <= n,
            ids_of(last@) == all.subrange(row_start as int, k as int),
        decreases n - k,
    {
        let ghost l0 = last@;
        let c = terms[k].clone();
        last.push(c);
        proof {
            lemma_ids_push(l0, c);
            assert(all.subrange(row_start as int, k + 1) =~= all.subrange(row_start as int, k as int).push(c@));
        }
        k = k + 1;
    }
    assert(all.skip(row_start as int) =~= all.subrange(row_start as int, n as int));
    let joined = join(&last, " + ");
    r.append(joined.as_str());
    r
}

/// The pieces of `s` between line feeds (one more than the number of line
/// feeds).
pub open spec fn split_lf(s: Seq<char>) -> Seq<Seq<char>>
    decreases s.len(),
{
    if s.len() == 0 {
        seq![Seq::empty()]
    } else {
        let prev = split_lf(s.drop_last());
        if s.last() == '\n' {
            prev.push(Seq::empty())
        } else {
            prev.update(prev.len() - 1, prev.last().push(s.last()))
        }
    }
}

/// A piece that ended at a line feed, without a carriage return before it.
pub open spec fn without_cr(p: Seq<char>) -> Seq<char> {
    if p.len() > 0 && p.last() == '\r' {
        p.drop_last()
    } else {
        p
    }
}

/// The lines of `s` as `str::lines` gives them: the pieces between line
/// feeds, a last empty piece left out, and a carriage return dropped where a
/// line feed follows it.
pub open spec fn text_lines(s: Seq<char>) -> Seq<Seq<char>> {
    let p = split_lf(s);
    let n = if p.last().len() == 0 { p.len() - 1 } else { p.len() as int };
    Seq::new(n as nat, |i: int| if i < p.len() - 1 { without_cr(p[i]) } else { p[i] })
}

/// The largest UTF-8 length among `lines` (0 when there is none).
pub open spec fn widest(lines: Seq<Seq<char>>) -> nat
    decreases lines.len(),
{
    if lines.len() == 0 {
        0
    } else {
        let w = widest(lines.drop_last());
        let l = encode_utf8(lines.last()).len();
        if l > w { l } else { w }
    }
}

/// Width of the fraction bar: the widest line of the numerator (1 when it
/// has no line), or the denominator's digits if they are wider.
pub open spec fn bar_width(numerator: Seq<char>, denominator: nat) -> nat {
    let lines = text_lines(numerator);
    let w = if lines.len() == 0 { 1 } else { widest(lines) };
    let d = decimal_text(denominator).len();
    if w >= d { w } else { d }
}

/// `s` repeated `n` times.
pub open spec fn repeat(s: Seq<char>, n: nat) -> Seq<char>
    decreases n,
{
    if n == 0 {
        Seq::empty()
    } else {
        repeat(s, (n - 1) as nat) + s
    }
}

/// Appends `piece` to `text` `n` times.
fn append_repeat(text: &mut String, piece: &str, n: usize)
    ensures
        final(text)@ == old(text)@ + repeat(piece@, n as nat),
{
    let mut i: usize = 0;
    while i < n
        invariant
            i <= n,
            text@ == old(text)@ + repeat(piece@, i as nat),
        decreases n - i,
    {
        let ghost t0 = text@;
        text.append(piece);
        i = i + 1;
        assert(text@ =~= old(text)@ + repeat(piece@, i as nat));
    }
}

/// UTF-8 encoding distributes over concatenation.
proof fn lemma_encode_concat(a: Seq<char>, b: Seq<char>)
    ensures
        encode_utf8(a + b) == encode_utf8(a) + encode_utf8(b),
    decreases a.len(),
{
    if a.len() == 0 {
        assert(a + b =~= b);
        assert(encode_utf8(a) + encode_utf8(b) =~= encode_utf8(b));
    } else {
        assert((a + b).drop_first() =~= a.drop_first() + b);
        assert((a + b)[0] == a[0]);
        lemma_encode_concat(a.drop_first(), b);
        assert(encode_utf8(a + b) =~= encode_utf8(a) + encode_utf8(b));
    }
}

/// A part of `s` takes no more UTF-8 bytes than `s`.
proof fn lemma_encode_subrange(s: Seq<char>, a: int, b: int)
    requires
        0 <= a <= b <= s.len(),
    ensures
        encode_utf8(s.subrange(a, b)).len() <= encode_utf8(s).len(),
{
    assert(s =~= s.take(a) + (s.subrange(a, b) + s.skip(b)));
    lemma_encode_concat(s.take(a), s.subrange(a, b) + s.skip(b));
    lemma_encode_concat(s.subrange(a, b), s.skip(b));
}

/// The widest line of `numerator` (UTF-8 length), or `None` when it has no line.
fn widest_line(numerator: &str) -> (r: Option<usize>)
    requires
        encode_utf8(numerator@).len() <= usize::MAX,
    ensures
        r is None ==> text_lines(numerator@).len() == 0,
        r matches Some(w) ==> text_lines(numerator@).len() > 0 && w == widest(text_lines(numerator@)),
{
    let ghost s = numerator@;
    let n = numerator.unicode_len();
    let ghost mut done: Seq<Seq<char>> = Seq::empty();
    let ghost mut lines: Seq<Seq<char>> = Seq::empty();
    let mut w: usize = 0;
    let mut any = false;
    let mut start: usize = 0;
    let mut i: usize = 0;
    assert(s.take(0) =~= Seq::<char>::empty());
    assert(s.subrange(0, 0) =~= Seq::<char>::empty());
    while i < n
        invariant
            n == s.len(),
            s == numerator@,
            start <= i <= n,
            encode_utf8(s).len() <= usize::MAX,
            split_lf(s.take(i as int)) == done.push(s.subrange(start as int, i as int)),
            lines.len() == done.len(),
            forall|k: int| 0 <= k < done.len() ==> #[trigger] lines[k] == without_cr(done[k]),
            w == widest(lines),
            any == (lines.len() > 0),
        decreases n - i,
    {
        let c = numerator.get_char(i);
        assert(s.take(i + 1).drop_last() =~= s.take(i as int));
        assert(s.take(i + 1).last() == c);
        if c == '\n' {
            let ghost piece = s.subrange(start as int, i as int);
            let end = if i > start && numerator.get_char(i - 1) == '\r' { i - 1 } else { i };
            let sub = numerator.substring_char(start, end);
            assert(sub@ =~= without_cr(piece));
            proof {
                lemma_encode_subrange(s, start as int, end as int);
            }
            let l = sub.len();
            if l > w {
                w = l;
            }
            any = true;
            proof {
                assert(lines.push(sub@).drop_last() =~= lines);
                lines = lines.push(sub@);
                assert(done.push(piece).drop_last() =~= done);
                done = done.push(piece);
            }
            start = i + 1;
            assert(s.subrange(start as int, start as int) =~= Seq::<char>::empty());
        } else {
            proof {
                let prev = done.push(s.subrange(start as int, i as int));
                assert(s.subrange(start as int, i as int).push(c) =~= s.subrange(start as int, i + 1));
                assert(prev.update(prev.len() - 1, prev.last().push(c)) =~= done.push(s.subrange(start as int, i + 1)));
            }
        }
        i = i + 1;
    }
    assert(s.take(n as int) =~= s);
    let ghost last = s.subrange(start as int, n as int);
    let ghost p = done.push(last);
    assert(split_lf(s) == p);
    if start < n {
        let sub = numerator.substring_char(start, n);
        proof {
            lemma_encode_subrange(s, start as int, n as int);
        }
        let l = sub.len();
        if l > w {
            w = l;
        }
        proof {
            let fin = lines.push(last);
            assert(fin.drop_last() =~= lines);
            assert(text_lines(s) =~= fin);
        }
        Some(w)
    } else {
        proof {
            assert(last.len() == 0);
            assert(text_lines(s) =~= lines);
        }
        if !any {
            None
        } else {
            Some(w)
        }
    }
}

/// Appends a fraction to the preview: `label`, then `label = numerator`,
/// then a bar of `─` as wide as the numerator's widest line (or the
/// denominator, if wider) plus the label and three, followed by `   = result`,
/// then the denominator under the numerator, then an empty line.
pub fn write_fraction_preview(text: &mut String, label: &str, numerator: &str, denominator: u32, result: &str)
    requires
        encode_utf8(numerator@).len() <= usize::MAX,
        bar_width(numerator@, denominator as nat) + encode_utf8(label@).len() + 3 <= usize::MAX,
    ensures
        final(text)@ == old(text)@ + label@ + "\n"@ + label@ + " = "@ + numerator@ + "\n"@
            + repeat("─"@, bar_width(numerator@, denominator as nat) + encode_utf8(label@).len() + 3)
            + "   = "@ + result@ + "\n"@
            + repeat(" "@, encode_utf8(label@).len() + 3) + decimal_text(denominator as nat)
            + "\n"@ + "\n"@,
{
    let digits = decimal(denominator as usize);
    let d = digits.as_str().unicode_len();
    let w = match widest_line(numerator) {
        Some(w) => w,
        None => 1,
    };
    let bar = if w >= d { w } else { d };
    assert(bar == bar_width(numerator@, denominator as nat));
    let label_len = label.len();
    text.append(label);
    text.append("\n");
    text.append(label);
    text.append(" = ");
    text.append(numerator);
    text.append("\n");
    append_repeat(text, "─", bar + label_len + 3);
    text.append("   = ");
    text.append(result);
    text.append("\n");
    append_repeat(text, " ", label_len + 3);
    text.append(digits.as_str());
    text.append("\n");
    text.append("\n");
}

} // verus!
