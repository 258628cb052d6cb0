//! The flat-text persistence codec. A deck is stored as a sequence of
//! three-line records
//!
//! ```text
//! <index>. Created: <timestamp>
//!    Question: <text>
//!    Answer: <text>
//! ```
//!
//! separated by blank lines. Loading scans the text for records of this
//! shape; blocks that do not match are skipped, but a record whose
//! timestamp does not parse fails the whole load.

use vstd::prelude::*;

use crate::text::{
    contains_byte, find_sub, find_pattern, lemma_find_sub, lemma_find_sub_at, match_at,
    match_at_exec, subrange_vec, trim, trim_spec, views,
};
use crate::{card_views, CardView, Flashcard, FlashcardDeck};

verus! {

/// Why loading a deck from text failed.
#[derive(Clone, Copy, PartialEq, Eq, Structural, Debug)]
pub enum ParseError {
    /// A record matched the three-line shape but its timestamp field does
    /// not parse.
    InvalidTimestamp,
}

/// Whether a byte string, read as UTF-8, is a well-formed timestamp in the
/// on-disk format. The result is given by chrono's parser (see
/// `timestamp_ok`); it is a function of the bytes alone.
pub uninterp spec fn timestamp_valid(s: Seq<u8>) -> bool;

/// Relies on `str::from_utf8` and chrono's `NaiveDateTime::parse_from_str`
/// with the format `%Y-%m-%d %H:%M:%S%.f %z`: whether the bytes are a
/// well-formed timestamp depends on the bytes alone.
#[verifier::external_body]
fn timestamp_ok(s: &Vec<u8>) -> (r: bool)
    ensures
        r == timestamp_valid(s@),
{
    match std::str::from_utf8(s.as_slice()) {
        Ok(t) => chrono::NaiveDateTime::parse_from_str(t, "%Y-%m-%d %H:%M:%S%.f %z").is_ok(),
        Err(_) => false,
    }
}

/// Relies on `chrono::Local::now` and chrono's formatter with the format
/// `%Y-%m-%d %H:%M:%S%.f %z`: the current local time as a byte string.
/// The result depends on the clock, so nothing is promised of it.
#[verifier::external_body]
fn now_timestamp() -> Vec<u8> {
    chrono::Local::now().format("%Y-%m-%d %H:%M:%S%.f %z").to_string().into_bytes()
}

/// The bytes of `"Created: "`.
pub open spec fn created_pat() -> Seq<u8> {
    seq![67u8, 114u8, 101u8, 97u8, 116u8, 101u8, 100u8, 58u8, 32u8]
}

/// The bytes of `"   Question: "`.
pub open spec fn question_pat() -> Seq<u8> {
    seq![32u8, 32u8, 32u8, 81u8, 117u8, 101u8, 115u8, 116u8, 105u8, 111u8, 110u8, 58u8, 32u8]
}

/// The bytes of `"   Answer: "`.
pub open spec fn answer_pat() -> Seq<u8> {
    seq![32u8, 32u8, 32u8, 65u8, 110u8, 115u8, 119u8, 101u8, 114u8, 58u8, 32u8]
}

fn created_bytes() -> (v: Vec<u8>)
    ensures
        v@ == created_pat(),
{
    let mut v: Vec<u8> = Vec::new();
    v.push(67);
    v.push(114);
    v.push(101);
    v.push(97);
    v.push(116);
    v.push(101);
    v.push(100);
    v.push(58);
    v.push(32);
    proof {
        assert(v@ =~= created_pat());
    }
    v
}

fn question_bytes() -> (v: Vec<u8>)
    ensures
        v@ == question_pat(),
{
    let mut v: Vec<u8> = Vec::new();
    v.push(32);
    v.push(32);
    v.push(32);
    v.push(81);
    v.push(117);
    v.push(101);
    v.push(115);
    v.push(116);
    v.push(105);
    v.push(111);
    v.push(110);
    v.push(58);
    v.push(32);
    proof {
        assert(v@ =~= question_pat());
    }
    v
}

fn answer_bytes() -> (v: Vec<u8>)
    ensures
        v@ == answer_pat(),
{
    let mut v: Vec<u8> = Vec::new();
    v.push(32);
    v.push(32);
    v.push(32);
    v.push(65);
    v.push(110);
    v.push(115);
    v.push(119);
    v.push(101);
    v.push(114);
    v.push(58);
    v.push(32);
    proof {
        assert(v@ =~= answer_pat());
    }
    v
}

/// The lines of `s`, split at every newline byte. The result always has at
/// least one element; a trailing newline yields a final empty line.
pub open spec fn split_lines(s: Seq<u8>) -> Seq<Seq<u8>>
    decreases s.len(),
{
    if s.len() == 0 {
        seq![Seq::<u8>::empty()]
    } else if s.last() == 10 {
        split_lines(s.drop_last()).push(Seq::<u8>::empty())
    } else {
        let rest = split_lines(s.drop_last());
        rest.update(rest.len() - 1, rest.last().push(s.last()))
    }
}

pub proof fn lemma_split_lines_nonempty(s: Seq<u8>)
    ensures
        split_lines(s).len() >= 1,
    decreases s.len(),
{
    if s.len() > 0 {
        lemma_split_lines_nonempty(s.drop_last());
    }
}

/// Splits `s` into its lines.
fn split_lines_exec(s: &Vec<u8>) -> (lines: Vec<Vec<u8>>)
    ensures
        views(lines@) == split_lines(s@),
{
    let mut done: Vec<Vec<u8>> = Vec::new();
    let mut cur: Vec<u8> = Vec::new();
    let mut i: usize = 0;
    proof {
        assert(s@.subrange(0, 0) =~= Seq::<u8>::empty());
        assert(split_lines(s@.subrange(0, 0)) =~= views(done@).push(cur@));
    }
    while i < s.len()
        invariant
            i <= s@.len(),
            split_lines(s@.subrange(0, i as int)) == views(done@).push(cur@),
        decreases s@.len() - i,
    {
        let ghost p = s@.subrange(0, i as int);
        let ghost p2 = s@.subrange(0, i + 1);
        proof {
            assert(p2.drop_last() =~= p);
            assert(p2.last() == s@[i as int]);
        }
        let b = s[i];
        if b == 10 {
            let ghost old_done = done@;
            let ghost old_cur = cur@;
            done.push(cur);
            cur = Vec::new();
            proof {
                assert(views(done@) =~= views(old_done).push(old_cur));
                assert(split_lines(p2) =~= views(done@).push(cur@));
            }
        } else {
            let ghost old_views = views(done@).push(cur@);
            cur.push(b);
            proof {
                assert(split_lines(p2) =~= old_views.update(
                    old_views.len() - 1,
                    old_views.last().push(b),
                ));
                assert(split_lines(p2) =~= views(done@).push(cur@));
            }
        }
        i = i + 1;
    }
    proof {
        assert(s@.subrange(0, s@.len() as int) =~= s@);
    }
    done.push(cur);
    proof {
        assert(views(done@) =~= split_lines(s@));
    }
    done
}

/// Decimal digits of `n`, most significant first.
pub open spec fn dec_rep(n: nat) -> Seq<u8>
    decreases n,
{
    if n < 10 {
        seq![(48 + n) as u8]
    } else {
        dec_rep(n / 10).push((48 + n % 10) as u8)
    }
}

pub proof fn lemma_dec_rep_digits(n: nat)
    ensures
        dec_rep(n).len() >= 1,
        forall|i: int| 0 <= i < dec_rep(n).len() ==> 48 <= #[trigger] dec_rep(n)[i] <= 57,
    decreases n,
{
    if n >= 10 {
        lemma_dec_rep_digits(n / 10);
    }
}

/// Appends the decimal digits of `n` to `out`.
fn push_dec(out: &mut Vec<u8>, n: u64)
    ensures
        final(out)@ == old(out)@ + dec_rep(n as nat),
    decreases n,
{
    if n < 10 {
        out.push(48 + n as u8);
        proof {
            assert(out@ =~= old(out)@ + dec_rep(n as nat));
        }
    } else {
        push_dec(out, n / 10);
        out.push(48 + (n % 10) as u8);
        proof {
            assert(out@ =~= old(out)@ + dec_rep(n as nat));
        }
    }
}

/// Appends `piece` to `out`.
fn append_bytes(out: &mut Vec<u8>, piece: &Vec<u8>)
    ensures
        final(out)@ == old(out)@ + piece@,
{
    let ghost base = out@;
    let mut j: usize = 0;
    while j < piece.len()
        invariant
            j <= piece@.len(),
            out@ == base + piece@.subrange(0, j as int),
        decreases piece@.len() - j,
    {
        out.push(piece[j]);
        proof {
            assert(out@ =~= base + piece@.subrange(0, j + 1));
        }
        j = j + 1;
    }
    proof {
        assert(base + piece@.subrange(0, piece@.len() as int) =~= base + piece@);
    }
}

/// One record block: index line, question line, answer line, blank line.
pub open spec fn render_block(idx: nat, ts: Seq<u8>, card: CardView) -> Seq<u8> {
    dec_rep(idx) + seq![46u8, 32u8] + created_pat() + ts + seq![10u8] + question_pat()
        + card.question + seq![10u8] + answer_pat() + card.answer + seq![10u8, 10u8]
}

pub open spec fn render_from(cards: Seq<CardView>, ts: Seq<u8>, idx: nat) -> Seq<u8>
    decreases cards.len(),
{
    if cards.len() == 0 {
        Seq::<u8>::empty()
    } else {
        render_block(idx, ts, cards[0]) + render_from(cards.drop_first(), ts, idx + 1)
    }
}

/// The stored text of a deck: one block per card, indexed from 1, every
/// record stamped with the same timestamp `ts`.
pub open spec fn render_spec(cards: Seq<CardView>, ts: Seq<u8>) -> Seq<u8> {
    render_from(cards, ts, 1)
}

/// The timestamp field of a `Created` line: everything after the first
/// occurrence of `"Created: "`, provided it is nonempty.
pub open spec fn created_field(line: Seq<u8>) -> Option<Seq<u8>> {
    match find_sub(line, created_pat()) {
        Some(p) => if p + created_pat().len() < line.len() {
            Some(line.subrange(p + created_pat().len(), line.len() as int))
        } else {
            None
        },
        None => None,
    }
}

/// The text of a line that starts with `pat`, provided it is nonempty.
pub open spec fn tail_after_prefix(line: Seq<u8>, pat: Seq<u8>) -> Option<Seq<u8>> {
    if pat.len() < line.len() && line.subrange(0, pat.len() as int) == pat {
        Some(line.subrange(pat.len() as int, line.len() as int))
    } else {
        None
    }
}

/// Whether a three-line record starts at line `i`. The first two lines of a
/// record are followed by a newline, so only the last line of the text may
/// close a record.
pub open spec fn record_at(lines: Seq<Seq<u8>>, i: int) -> bool {
    &&& 0 <= i
    &&& i + 3 <= lines.len()
    &&& created_field(lines[i]) is Some
    &&& tail_after_prefix(lines[i + 1], question_pat()) is Some
    &&& tail_after_prefix(lines[i + 2], answer_pat()) is Some
}

/// Scans the lines from line `i` on: each record yields a card whose
/// question and answer are the trimmed fields; a record with an invalid
/// timestamp fails the whole parse; any other line is skipped.
pub open spec fn parse_from(lines: Seq<Seq<u8>>, i: int) -> Result<Seq<CardView>, ParseError>
    decreases lines.len() - i,
{
    if i < 0 || i >= lines.len() {
        Ok(Seq::<CardView>::empty())
    } else if record_at(lines, i) {
        let ts = created_field(lines[i])->Some_0;
        let q = tail_after_prefix(lines[i + 1], question_pat())->Some_0;
        let a = tail_after_prefix(lines[i + 2], answer_pat())->Some_0;
        if !timestamp_valid(ts) {
            Err(ParseError::InvalidTimestamp)
        } else {
            match parse_from(lines, i + 3) {
                Ok(rest) => Ok(
                    seq![CardView { question: trim_spec(q), answer: trim_spec(a) }] + rest,
                ),
                Err(e) => Err(e),
            }
        }
    } else {
        parse_from(lines, i + 1)
    }
}

/// What loading a text yields: the cards of its records, in order, or the
/// error when a record's timestamp is invalid.
pub open spec fn parse_spec(s: Seq<u8>) -> Result<Seq<CardView>, ParseError> {
    parse_from(split_lines(s), 0)
}

/// `acc` followed by whatever `r` yields.
pub open spec fn glue(acc: Seq<CardView>, r: Result<Seq<CardView>, ParseError>) -> Result<
    Seq<CardView>,
    ParseError,
> {
    match r {
        Ok(rest) => Ok(acc + rest),
        Err(e) => Err(e),
    }
}

/// A card that the text format can store faithfully: both fields are
/// nonempty, newline-free and carry no surrounding whitespace.
pub open spec fn card_well_formed(c: CardView) -> bool {
    &&& c.question.len() > 0
    &&& c.answer.len() > 0
    &&& !c.question.contains(10u8)
    &&& !c.answer.contains(10u8)
    &&& trim_spec(c.question) == c.question
    &&& trim_spec(c.answer) == c.answer
}

/// A deck whose every card the text format can store faithfully.
pub open spec fn deck_well_formed(cards: Seq<CardView>) -> bool {
    forall|i: int| 0 <= i < cards.len() ==> card_well_formed(#[trigger] cards[i])
}

/// A newline-free byte string splits into the single line it is.
proof fn lemma_split_single(line: Seq<u8>)
    requires
        !line.contains(10u8),
    ensures
        split_lines(line) == seq![line],
    decreases line.len(),
{
    if line.len() == 0 {
        assert(line =~= Seq::<u8>::empty());
        assert(split_lines(line) =~= seq![line]);
    } else {
        let prev = line.drop_last();
        assert(line[line.len() - 1] != 10) by {
            if line.last() == 10 {
                assert(line.contains(10u8));
            }
        }
        assert(!prev.contains(10u8)) by {
            if prev.contains(10u8) {
                let i = choose|i: int| 0 <= i < prev.len() && prev[i] == 10;
                assert(line[i] == 10);
                assert(line.contains(10u8));
            }
        }
        lemma_split_single(prev);
        assert(prev.push(line.last()) =~= line);
        assert(split_lines(line) =~= seq![prev].update(0, prev.push(line.last())));
        assert(split_lines(line) =~= seq![line]);
    }
}

/// Splitting `line + "\n" + rest` yields `line` followed by the lines of
/// `rest`, when `line` itself holds no newline.
proof fn lemma_split_prepend_line(line: Seq<u8>, rest: Seq<u8>)
    requires
        !line.contains(10u8),
    ensures
        split_lines(line + seq![10u8] + rest) == seq![line] + split_lines(rest),
    decreases rest.len(),
{
    if rest.len() == 0 {
        let s = line + seq![10u8] + rest;
        assert(s.drop_last() =~= line);
        assert(s.last() == 10);
        lemma_split_single(line);
        assert(split_lines(s) =~= seq![line] + split_lines(rest));
    } else {
        let prev = rest.drop_last();
        let c = rest.last();
        let s = line + seq![10u8] + rest;
        let s0 = line + seq![10u8] + prev;
        assert(s.drop_last() =~= s0);
        assert(s.last() == c);
        lemma_split_prepend_line(line, prev);
        lemma_split_lines_nonempty(prev);
        if c == 10 {
            assert(split_lines(s) =~= seq![line] + split_lines(rest));
        } else {
            let x = split_lines(s0);
            let r = split_lines(prev);
            assert(x == seq![line] + r);
            assert(x.len() == 1 + r.len());
            assert(x.last() == r.last());
            assert(split_lines(s) == x.update(x.len() - 1, x.last().push(c)));
            assert(split_lines(rest) == r.update(r.len() - 1, r.last().push(c)));
            assert(split_lines(s) =~= seq![line] + split_lines(rest));
        }
    }
}

/// Parsing from position `pre.len() + k` ignores the first `pre.len()`
/// lines entirely.
proof fn lemma_parse_shift(pre: Seq<Seq<u8>>, lines: Seq<Seq<u8>>, k: int)
    requires
        0 <= k,
    ensures
        parse_from(pre + lines, pre.len() + k) == parse_from(lines, k),
    decreases lines.len() - k,
{
    let all = pre + lines;
    if k >= lines.len() {
        assert(parse_from(all, pre.len() + k) == Ok::<Seq<CardView>, ParseError>(
            Seq::<CardView>::empty(),
        ));
    } else {
        assert(all[pre.len() + k] == lines[k]);
        if k + 1 < lines.len() {
            assert(all[pre.len() + k + 1] == lines[k + 1]);
        }
        if k + 2 < lines.len() {
            assert(all[pre.len() + k + 2] == lines[k + 2]);
        }
        assert(record_at(all, pre.len() + k) == record_at(lines, k));
        if record_at(lines, k) {
            lemma_parse_shift(pre, lines, k + 3);
        } else {
            lemma_parse_shift(pre, lines, k + 1);
        }
    }
}

/// The lines of one rendered block followed by more text: the index line,
/// the question line, the answer line, a blank line, then the rest.
proof fn lemma_block_lines(idx: nat, ts: Seq<u8>, card: CardView, tail: Seq<u8>)
    requires
        ts.len() > 0,
        !ts.contains(10u8),
        card_well_formed(card),
    ensures
        ({
            let l1 = dec_rep(idx) + seq![46u8, 32u8] + created_pat() + ts;
            let l2 = question_pat() + card.question;
            let l3 = answer_pat() + card.answer;
            split_lines(render_block(idx, ts, card) + tail) == seq![l1, l2, l3]
                + (seq![Seq::<u8>::empty()] + split_lines(tail))
        }),
{
    let l1 = dec_rep(idx) + seq![46u8, 32u8] + created_pat() + ts;
    let l2 = question_pat() + card.question;
    let l3 = answer_pat() + card.answer;
    lemma_dec_rep_digits(idx);
    assert(!l1.contains(10u8)) by {
        if l1.contains(10u8) {
            let i = choose|i: int| 0 <= i < l1.len() && l1[i] == 10;
            if i < dec_rep(idx).len() {
                assert(dec_rep(idx)[i] == 10);
            } else if i >= dec_rep(idx).len() + 2 + 9 {
                assert(ts[i - (dec_rep(idx).len() + 11)] == 10);
                assert(ts.contains(10u8));
            }
        }
    }
    assert(!l2.contains(10u8)) by {
        if l2.contains(10u8) {
            let i = choose|i: int| 0 <= i < l2.len() && l2[i] == 10;
            if i >= question_pat().len() {
                assert(card.question[i - question_pat().len()] == 10);
                assert(card.question.contains(10u8));
            }
        }
    }
    assert(!l3.contains(10u8)) by {
        if l3.contains(10u8) {
            let i = choose|i: int| 0 <= i < l3.len() && l3[i] == 10;
            if i >= answer_pat().len() {
                assert(card.answer[i - answer_pat().len()] == 10);
                assert(card.answer.contains(10u8));
            }
        }
    }
    let after1 = l2 + seq![10u8] + (l3 + seq![10u8] + (seq![10u8] + tail));
    assert(render_block(idx, ts, card) + tail =~= l1 + seq![10u8] + after1);
    lemma_split_prepend_line(l1, after1);
    lemma_split_prepend_line(l2, l3 + seq![10u8] + (seq![10u8] + tail));
    lemma_split_prepend_line(l3, seq![10u8] + tail);
    assert(Seq::<u8>::empty() + seq![10u8] + tail =~= seq![10u8] + tail);
    assert(!Seq::<u8>::empty().contains(10u8));
    lemma_split_prepend_line(Seq::<u8>::empty(), tail);
    assert(split_lines(render_block(idx, ts, card) + tail) =~= seq![l1, l2, l3]
        + (seq![Seq::<u8>::empty()] + split_lines(tail)));
}

/// `"Created: "` first occurs in a rendered index line right after the
/// index and its separator, so the timestamp is the line's first field:
/// nothing before that point holds the byte `C`.
#[verifier::rlimit(100)]
proof fn lemma_created_line(idx: nat, ts: Seq<u8>)
    requires
        ts.len() > 0,
    ensures
        created_field(dec_rep(idx) + seq![46u8, 32u8] + created_pat() + ts) == Some(ts),
{
    let l1 = dec_rep(idx) + seq![46u8, 32u8] + created_pat() + ts;
    lemma_dec_rep_digits(idx);
    let p = dec_rep(idx).len() as int + 2;
    assert(created_pat()[0] == 67);
    assert forall|j: int| 0 <= j < p implies l1[j] != 67 by {
        if j < dec_rep(idx).len() {
            assert(l1[j] == dec_rep(idx)[j]);
            assert(48 <= dec_rep(idx)[j] <= 57);
        } else if j == dec_rep(idx).len() {
            assert(l1[j] == 46);
        } else {
            assert(l1[j] == 32);
        }
    }
    assert forall|j: int| 0 <= j < p implies !match_at(l1, created_pat(), j) by {
        if match_at(l1, created_pat(), j) {
            assert(l1.subrange(j, j + 9)[0] == l1[j]);
        }
    }
    assert(match_at(l1, created_pat(), p)) by {
        assert(l1.subrange(p, p + 9) =~= created_pat());
    }
    lemma_find_sub_at(l1, created_pat(), p);
    assert(created_field(l1) == Some(ts)) by {
        assert(p + created_pat().len() < l1.len());
        assert(l1.subrange(p + 9, l1.len() as int) =~= ts);
    }
}

/// The three lines of a rendered block expose exactly the block's fields.
#[verifier::rlimit(80)]
proof fn lemma_record_lines(idx: nat, ts: Seq<u8>, card: CardView)
    requires
        ts.len() > 0,
        card_well_formed(card),
    ensures
        ({
            let l1 = dec_rep(idx) + seq![46u8, 32u8] + created_pat() + ts;
            let l2 = question_pat() + card.question;
            let l3 = answer_pat() + card.answer;
            &&& created_field(l1) == Some(ts)
            &&& tail_after_prefix(l2, question_pat()) == Some(card.question)
            &&& tail_after_prefix(l3, answer_pat()) == Some(card.answer)
        }),
{
    let l2 = question_pat() + card.question;
    let l3 = answer_pat() + card.answer;
    lemma_created_line(idx, ts);
    assert(tail_after_prefix(l2, question_pat()) == Some(card.question)) by {
        assert(l2.subrange(0, question_pat().len() as int) =~= question_pat());
        assert(l2.subrange(question_pat().len() as int, l2.len() as int) =~= card.question);
    }
    assert(tail_after_prefix(l3, answer_pat()) == Some(card.answer)) by {
        assert(l3.subrange(0, answer_pat().len() as int) =~= answer_pat());
        assert(l3.subrange(answer_pat().len() as int, l3.len() as int) =~= card.answer);
    }
}

#[verifier::rlimit(60)]
proof fn lemma_round_trip_from(cards: Seq<CardView>, ts: Seq<u8>, idx: nat)
    requires
        deck_well_formed(cards),
        timestamp_valid(ts),
        ts.len() > 0,
        !ts.contains(10u8),
    ensures
        parse_from(split_lines(render_from(cards, ts, idx)), 0) == Ok::<Seq<CardView>, ParseError>(
            cards,
        ),
    decreases cards.len(),
{
    if cards.len() == 0 {
        assert(render_from(cards, ts, idx) == Seq::<u8>::empty());
        assert(split_lines(Seq::<u8>::empty()) =~= seq![Seq::<u8>::empty()]);
        let lines = seq![Seq::<u8>::empty()];
        assert(find_sub(lines[0], created_pat()).is_none());
        assert(!record_at(lines, 0));
        assert(parse_from(lines, 0) == parse_from(lines, 1));
        assert(cards =~= Seq::<CardView>::empty());
    } else {
        let c0 = cards[0];
        let rest = cards.drop_first();
        assert(card_well_formed(c0));
        assert(deck_well_formed(rest)) by {
            assert forall|i: int| 0 <= i < rest.len() implies card_well_formed(rest[i]) by {
                assert(rest[i] == cards[i + 1]);
            }
        }
        let tail = render_from(rest, ts, idx + 1);
        assert(render_from(cards, ts, idx) == render_block(idx, ts, c0) + tail);
        lemma_block_lines(idx, ts, c0, tail);
        let l1 = dec_rep(idx) + seq![46u8, 32u8] + created_pat() + ts;
        let l2 = question_pat() + c0.question;
        let l3 = answer_pat() + c0.answer;
        let lines = seq![l1, l2, l3] + (seq![Seq::<u8>::empty()] + split_lines(tail));
        lemma_split_lines_nonempty(tail);
        lemma_record_lines(idx, ts, c0);
        assert(record_at(lines, 0));
        lemma_round_trip_from(rest, ts, (idx + 1) as nat);
        lemma_parse_shift(seq![l1, l2, l3], seq![Seq::<u8>::empty()] + split_lines(tail), 0);
        let lines2 = seq![Seq::<u8>::empty()] + split_lines(tail);
        assert(parse_from(lines, 3) == parse_from(lines2, 0));
        assert(find_sub(lines2[0], created_pat()).is_none());
        assert(!record_at(lines2, 0));
        assert(parse_from(lines2, 0) == parse_from(lines2, 1));
        lemma_parse_shift(seq![Seq::<u8>::empty()], split_lines(tail), 0);
        assert(parse_from(lines2, 1) == parse_from(split_lines(tail), 0));
        assert(parse_from(split_lines(tail), 0) == Ok::<Seq<CardView>, ParseError>(rest));
        assert(trim_spec(c0.question) == c0.question);
        assert(trim_spec(c0.answer) == c0.answer);
        assert(parse_from(lines, 0) == Ok::<Seq<CardView>, ParseError>(seq![c0] + rest));
        assert(seq![c0] + rest =~= cards);
    }
}

/// Round trip of the codec: the rendering of a well-formed deck, stamped
/// with any valid newline-free timestamp, parses back to the very same
/// sequence of cards.
pub proof fn lemma_round_trip(cards: Seq<CardView>, ts: Seq<u8>)
    requires
        deck_well_formed(cards),
    ensures
        (timestamp_valid(ts) && ts.len() > 0 && !ts.contains(10u8)) ==> parse_spec(
            render_spec(cards, ts),
        ) == Ok::<Seq<CardView>, ParseError>(cards),
{
    if timestamp_valid(ts) && ts.len() > 0 && !ts.contains(10u8) {
        lemma_round_trip_from(cards, ts, 1);
    }
}

impl FlashcardDeck {
    /// Loads a deck from the stored text, as `parse_spec` describes:
    /// records are matched leniently, but an invalid timestamp in a matched
    /// record fails the whole load.
    pub fn from_text(contents: &Vec<u8>) -> (r: Result<FlashcardDeck, ParseError>)
        ensures
            match r {
                Ok(deck) => parse_spec(contents@) == Ok::<Seq<CardView>, ParseError>(deck@),
                Err(e) => parse_spec(contents@) == Err::<Seq<CardView>, ParseError>(e),
            },
    {
        let lines = split_lines_exec(contents);
        let ghost ls = views(lines@);
        let created = created_bytes();
        let question = question_bytes();
        let answer = answer_bytes();
        let n = lines.len();
        let mut cards: Vec<Flashcard> = Vec::new();
        let mut i: usize = 0;
        proof {
            assert(glue(card_views(cards@), parse_from(ls, 0)) == parse_from(ls, 0));
            assert(card_views(cards@) + parse_from(ls, 0)->Ok_0 =~= parse_from(ls, 0)->Ok_0);
        }
        while i < n
            invariant
                n == ls.len(),
                views(lines@) == ls,
                ls == split_lines(contents@),
                created@ == created_pat(),
                question@ == question_pat(),
                answer@ == answer_pat(),
                i <= n,
                parse_from(ls, 0) == glue(card_views(cards@), parse_from(ls, i as int)),
            decreases n - i,
        {
            let ghost acc = card_views(cards@);
            let line = &lines[i];
            proof {
                assert(ls[i as int] == line@);
            }
            let mut matched = false;
            if n - i >= 3 {
                let ghost l2v = ls[i + 1];
                let ghost l3v = ls[i + 2];
                match find_pattern(line, &created) {
                    Some(p) => {
                        proof {
                            lemma_find_sub(line@, created_pat());
                        }
                        if line.len() - p > 9 {
                            let ts = subrange_vec(line, p + 9, line.len());
                            proof {
                                assert(created_field(line@) == Some(ts@));
                            }
                            let l2 = &lines[i + 1];
                            let l3 = &lines[i + 2];
                            proof {
                                assert(l2@ == l2v);
                                assert(l3@ == l3v);
                            }
                            if l2.len() > 13 && match_at_exec(l2, &question, 0) {
                                let q = subrange_vec(l2, 13, l2.len());
                                proof {
                                    assert(tail_after_prefix(l2v, question_pat()) == Some(q@));
                                }
                                if l3.len() > 11 && match_at_exec(l3, &answer, 0) {
                                    let a = subrange_vec(l3, 11, l3.len());
                                    proof {
                                        assert(tail_after_prefix(l3v, answer_pat()) == Some(a@));
                                        assert(record_at(ls, i as int));
                                    }
                                    if !timestamp_ok(&ts) {
                                        proof {
                                            assert(parse_from(ls, i as int) == Err::<
                                                Seq<CardView>,
                                                ParseError,
                                            >(ParseError::InvalidTimestamp));
                                        }
                                        return Err(ParseError::InvalidTimestamp);
                                    }
                                    let card = Flashcard { question: trim(&q), answer: trim(&a) };
                                    proof {
                                        assert(card@ == CardView {
                                            question: trim_spec(q@),
                                            answer: trim_spec(a@),
                                        });
                                    }
                                    cards.push(card);
                                    proof {
                                        assert(card_views(cards@) =~= acc.push(card@));
                                        match parse_from(ls, i + 3) {
                                            Ok(rest) => {
                                                assert(parse_from(ls, i as int) == Ok::<
                                                    Seq<CardView>,
                                                    ParseError,
                                                >(seq![card@] + rest));
                                                assert(acc + (seq![card@] + rest) =~= acc.push(
                                                    card@,
                                                ) + rest);
                                            },
                                            Err(_) => {},
                                        }
                                        assert(parse_from(ls, 0) == glue(
                                            card_views(cards@),
                                            parse_from(ls, i + 3),
                                        ));
                                    }
                                    i = i + 3;
                                    matched = true;
                                }
                            }
                        }
                    },
                    None => {},
                }
            }
            if !matched {
                proof {
                    assert(!record_at(ls, i as int));
                    assert(parse_from(ls, i as int) == parse_from(ls, i + 1));
                }
                i = i + 1;
            }
        }
        proof {
            assert(parse_from(ls, n as int) == Ok::<Seq<CardView>, ParseError>(
                Seq::<CardView>::empty(),
            ));
            assert(card_views(cards@) + Seq::<CardView>::empty() =~= card_views(cards@));
        }
        Ok(FlashcardDeck { cards })
    }

    /// Renders the deck in the stored format, stamping every record with
    /// the timestamp `ts`.
    pub fn to_text(&self, ts: &Vec<u8>) -> (out: Vec<u8>)
        ensures
            out@ == render_spec(self@, ts@),
    {
        let created = created_bytes();
        let question = question_bytes();
        let answer = answer_bytes();
        let n = self.cards.len();
        let mut out: Vec<u8> = Vec::new();
        let mut i: usize = 0;
        proof {
            assert(self@.subrange(0, n as int) =~= self@);
            assert(Seq::<u8>::empty() + render_from(self@, ts@, 1) =~= render_from(
                self@,
                ts@,
                1,
            ));
        }
        while i < n
            invariant
                n == self.cards@.len(),
                self@.len() == n,
                created@ == created_pat(),
                question@ == question_pat(),
                answer@ == answer_pat(),
                i <= n,
                render_spec(self@, ts@) == out@ + render_from(
                    self@.subrange(i as int, n as int),
                    ts@,
                    (i + 1) as nat,
                ),
            decreases n - i,
        {
            let ghost pre = out@;
            let ghost suffix = self@.subrange(i as int, n as int);
            push_dec(&mut out, (i + 1) as u64);
            out.push(46);
            out.push(32);
            append_bytes(&mut out, &created);
            append_bytes(&mut out, ts);
            out.push(10);
            append_bytes(&mut out, &question);
            let card = &self.cards[i];
            append_bytes(&mut out, &card.question);
            out.push(10);
            append_bytes(&mut out, &answer);
            append_bytes(&mut out, &card.answer);
            out.push(10);
            out.push(10);
            proof {
                assert(self@[i as int] == self.cards@[i as int]@);
                assert(out@ =~= pre + render_block((i + 1) as nat, ts@, self@[i as int]));
                assert(suffix[0] == self@[i as int]);
                assert(suffix.drop_first() =~= self@.subrange(i + 1, n as int));
                assert(render_from(suffix, ts@, (i + 1) as nat) == render_block(
                    (i + 1) as nat,
                    ts@,
                    self@[i as int],
                ) + render_from(self@.subrange(i + 1, n as int), ts@, (i + 2) as nat));
            }
            i = i + 1;
        }
        proof {
            assert(render_from(self@.subrange(n as int, n as int), ts@, (n + 1) as nat)
                =~= Seq::<u8>::empty());
            assert(out@ + Seq::<u8>::empty() =~= out@);
        }
        out
    }

    /// Renders the deck with a freshly generated timestamp from the local
    /// clock. `None` comes only when the clock's rendering is unusable as a
    /// timestamp field; the text of a well-formed deck parses back to the
    /// very same cards.
    pub fn save_text(&self) -> (r: Option<Vec<u8>>)
        ensures
            match r {
                Some(out) => {
                    &&& exists|ts: Seq<u8>|
                        #[trigger] timestamp_valid(ts) && ts.len() > 0 && !ts.contains(10u8)
                            && out@ == render_spec(self@, ts)
                    &&& deck_well_formed(self@) ==> parse_spec(out@) == Ok::<
                        Seq<CardView>,
                        ParseError,
                    >(self@)
                },
                None => true,
            },
    {
        let ts = now_timestamp();
        if ts.len() == 0 {
            return None;
        }
        if contains_byte(&ts, 10) {
            return None;
        }
        if !timestamp_ok(&ts) {
            return None;
        }
        let out = self.to_text(&ts);
        proof {
            if deck_well_formed(self@) {
                lemma_round_trip(self@, ts@);
            }
        }
        Some(out)
    }
}

} // verus!
