//! The persisted top-scores board: line format, parsing, and the
//! descending-order merge of a new result.
//!
//! Each stored line reads `<name> <score>` where the score is written with
//! exactly two decimal digits.  Scores are held as integer centi-points, so
//! `12.34` denotes 1234 centi-points.  The name may itself contain spaces:
//! the score starts after the last space of the line.

use vstd::prelude::*;
use vstd::string::StringExecFns;
use vstd::string::StrSliceExecFns;
use crate::text::all_digits;
use crate::text::dec_digits;
use crate::text::digit_char;
use crate::text::digit_val;
use crate::text::digit_value;
use crate::text::digits_val;
use crate::text::is_digit_char;
use crate::text::lemma_dec_digits_are_digits;
use crate::text::lemma_digits_val_bound;
use crate::text::lemma_dec_digits_len;
use crate::text::lemma_dec_digits_val;
use crate::text::lemma_pow10_mono;
use crate::text::pow10;
use crate::text::u64_to_string;

verus! {

/// Longest run of digits the integer part of a stored score may have; it
/// keeps every parsed score inside `u64`.
pub const SCORE_DIGITS_LIMIT: usize = 16;

/// The mathematical view of a scoreboard entry: a name and a score in
/// centi-points.
pub struct EntryV {
    pub name: Seq<char>,
    pub score: int,
}

/// One scoreboard entry: a player name and a score in centi-points.
#[derive(Debug)]
pub struct ScoreEntry {
    pub name: String,
    pub score: u64,
}

impl View for ScoreEntry {
    type V = EntryV;

    open spec fn view(&self) -> EntryV {
        EntryV { name: self.name@, score: self.score as int }
    }
}

impl DeepView for ScoreEntry {
    type V = EntryV;

    open spec fn deep_view(&self) -> EntryV {
        self@
    }
}

impl Clone for ScoreEntry {
    fn clone(&self) -> (r: Self)
        ensures
            r == *self,
    {
        ScoreEntry { name: self.name.clone(), score: self.score }
    }
}

/// The two-decimal rendering of a score in centi-points.
pub open spec fn score_text(score: int) -> Seq<char> {
    dec_digits(score / 100) + seq!['.', digit_char((score / 10) % 10), digit_char(score % 10)]
}

/// The stored line of one entry.
pub open spec fn entry_line(e: EntryV) -> Seq<char> {
    e.name + seq![' '] + score_text(e.score)
}

/// A well-formed score text: one or more digits, a dot, and exactly two
/// digits, with the integer part short enough to fit the score in `u64`.
pub open spec fn valid_score_text(s: Seq<char>) -> bool {
    &&& s.len() >= 4
    &&& s.len() - 3 <= SCORE_DIGITS_LIMIT as int
    &&& s[s.len() - 3] == '.'
    &&& all_digits(s.take(s.len() - 3))
    &&& is_digit_char(s[s.len() - 2])
    &&& is_digit_char(s[s.len() - 1])
}

/// The centi-point value a well-formed score text denotes.
pub open spec fn score_text_val(s: Seq<char>) -> int {
    digits_val(s.take(s.len() - 3)) * 100 + digit_val(s[s.len() - 2]) * 10 + digit_val(
        s[s.len() - 1],
    )
}

/// Parse one stored line: the name is everything before the last space, the
/// score text everything after it.  A line without a space, or whose score
/// text is not well-formed, does not parse.
pub open spec fn parse_line_spec(s: Seq<char>) -> Option<EntryV> {
    match s.index_of_last(' ') {
        Some(sp) => if valid_score_text(s.skip(sp + 1)) {
            Some(EntryV { name: s.take(sp), score: score_text_val(s.skip(sp + 1)) })
        } else {
            None
        },
        None => None,
    }
}

/// Parse one stored scoreboard line.
pub fn parse_score_line(line: &str) -> (r: Option<ScoreEntry>)
    ensures
        match r {
            Some(e) => parse_line_spec(line@) == Some(e@),
            None => parse_line_spec(line@) is None,
        },
{
    let n = line.unicode_len();
    // Find the last space.
    let mut i: usize = n;
    while i > 0 && line.get_char(i - 1) != ' '
        invariant
            0 <= i <= n,
            n == line@.len(),
            forall|j: int| i <= j < n ==> line@[j] != ' ',
        decreases i,
    {
        i = i - 1;
    }
    if i == 0 {
        proof {
            line@.index_of_last_ensures(' ');
            if line@.index_of_last(' ') is Some {
                let k = line@.index_of_last(' ').unwrap();
                assert(line@[k] == ' ');
            }
        }
        return None;
    }
    let sp = i - 1;
    proof {
        line@.index_of_last_ensures(' ');
        assert(line@.contains(' ')) by {
            assert(line@[sp as int] == ' ');
        }
        let k = line@.index_of_last(' ').unwrap();
        assert(k >= sp);
        assert(k <= sp);
    }
    let ghost part = line@.skip(sp as int + 1);
    proof {
        assert(forall|j: int| 0 <= j < part.len() ==> part[j] == line@[j + sp as int + 1]);
    }
    // The score text runs from sp + 1 to n.
    let m = n - sp - 1;
    if m < 4 || m - 3 > SCORE_DIGITS_LIMIT {
        return None;
    }
    if line.get_char(n - 3) != '.' {
        assert(part[part.len() - 3] == line@[n - 3]);
        return None;
    }
    // Accumulate the integer part.
    let mut acc: u64 = 0;
    let mut j: usize = sp + 1;
    proof {
        assert(part.take(0) =~= Seq::<char>::empty());
    }
    while j < n - 3
        invariant
            sp + 1 <= j <= n - 3,
            n == line@.len(),
            n - 3 - (sp + 1) <= SCORE_DIGITS_LIMIT,
            n >= sp + 4,
            line@.index_of_last(' ') == Some(sp as int),
            part == line@.skip(sp as int + 1),
            part[part.len() - 3] == '.',
            all_digits(part.take(j - sp - 1)),
            acc as int == digits_val(part.take(j - sp - 1)),
            (acc as int) < pow10((j - sp - 1) as nat),
        decreases n - j,
    {
        let c = line.get_char(j);
        proof {
            assert(part[j - sp - 1] == line@[j as int]);
        }
        match digit_value(c) {
            Some(v) => {
                proof {
                    let p = part.take(j - sp - 1);
                    let p2 = part.take(j - sp as int);
                    assert(p2.drop_last() =~= p);
                    assert(p2.last() == c);
                    lemma_pow10_mono((j - sp - 1) as nat, (SCORE_DIGITS_LIMIT - 1) as nat);
                    crate::text::lemma_pow10_16();
                }
                acc = acc * 10 + (v as u64);
            },
            None => {
                proof {
                    assert(!valid_score_text(part)) by {
                        assert(part.take(part.len() - 3)[j - sp as int - 1] == part[j - sp as int
                            - 1]);
                        assert(!is_digit_char(part.take(part.len() - 3)[j - sp as int - 1]));
                    }
                }
                return None;
            },
        }
        j = j + 1;
    }
    // The two decimal digits.
    let d1 = match digit_value(line.get_char(n - 2)) {
        Some(v) => v,
        None => {
            proof {
                assert(part[part.len() - 2] == line@[n - 2]);
            }
            return None;
        },
    };
    let d0 = match digit_value(line.get_char(n - 1)) {
        Some(v) => v,
        None => {
            proof {
                assert(part[part.len() - 1] == line@[n - 1]);
            }
            return None;
        },
    };
    proof {
        assert(part.take(part.len() - 3) =~= part.take(n - 3 - (sp as int + 1)));
        assert(part[part.len() - 2] == line@[n - 2]);
        assert(part[part.len() - 1] == line@[n - 1]);
        assert(part[part.len() - 3] == line@[n - 3]);
        lemma_pow10_mono((n - 3 - (sp + 1)) as nat, SCORE_DIGITS_LIMIT as nat);
        crate::text::lemma_pow10_16();
    }
    let score: u64 = acc * 100 + (d1 as u64) * 10 + (d0 as u64);
    let name = line.substring_char(0, sp).to_owned();
    Some(ScoreEntry { name, score })
}

/// A board line written by the game parses back to exactly the entry it
/// was written from, whatever the name: the persisted board reloads as the
/// same entries.  Only scores whose integer part outgrows the digit limit
/// fall outside this guarantee.
pub proof fn lemma_line_round_trip(e: EntryV)
    requires
        0 <= e.score,
        e.score / 100 < pow10(SCORE_DIGITS_LIMIT as nat),
    ensures
        parse_line_spec(entry_line(e)) == Some(e),
{
    let line = entry_line(e);
    let st = score_text(e.score);
    let dd = dec_digits(e.score / 100);
    lemma_dec_digits_are_digits(e.score / 100);
    lemma_dec_digits_val(e.score / 100);
    lemma_dec_digits_len(e.score / 100, SCORE_DIGITS_LIMIT as nat);
    let nl = e.name.len() as int;
    assert(line[nl] == ' ');
    assert(st.len() == dd.len() + 3);
    assert(st[st.len() - 3] == '.');
    assert(st[st.len() - 2] == digit_char((e.score / 10) % 10));
    assert(st[st.len() - 1] == digit_char(e.score % 10));
    // everything after the separator is a digit or the dot, never a space
    assert forall|j: int| nl < j < line.len() implies line[j] != ' ' by {
        assert(line[j] == st[j - nl - 1]);
        if j - nl - 1 < dd.len() {
            assert(st[j - nl - 1] == dd[j - nl - 1]);
            assert(is_digit_char(dd[j - nl - 1]));
        }
    }
    line.index_of_last_ensures(' ');
    assert(line.contains(' ')) by {
        assert(line[nl] == ' ');
    }
    let k = line.index_of_last(' ').unwrap();
    assert(k >= nl);
    assert(k <= nl);
    let part = line.skip(nl + 1);
    assert(part =~= st);
    assert(part.take(part.len() - 3) =~= dd);
    assert(valid_score_text(part));
    // the score text denotes the score it was written from
    assert(digit_val(digit_char((e.score / 10) % 10)) == (e.score / 10) % 10);
    assert(digit_val(digit_char(e.score % 10)) == e.score % 10);
    vstd::arithmetic::div_mod::lemma_fundamental_div_mod(e.score, 10);
    vstd::arithmetic::div_mod::lemma_fundamental_div_mod(e.score / 10, 10);
    vstd::arithmetic::div_mod::lemma_div_denominator(e.score, 10, 10);
    assert(score_text_val(part) == e.score);
    assert(line.take(nl) =~= e.name);
}

/// Every score a stored line can denote fits the digit limit: its integer
/// part stays below `10^16`.
pub proof fn lemma_parsed_score_bounded(s: Seq<char>)
    ensures
        parse_line_spec(s) matches Some(e) ==> 0 <= e.score && e.score / 100 < pow10(
            SCORE_DIGITS_LIMIT as nat,
        ),
{
    if parse_line_spec(s) is Some {
        let sp = s.index_of_last(' ').unwrap();
        let part = s.skip(sp + 1);
        let digits = part.take(part.len() - 3);
        lemma_digits_val_bound(digits);
        lemma_pow10_mono(digits.len() as nat, SCORE_DIGITS_LIMIT as nat);
        let e = parse_line_spec(s).unwrap();
        vstd::arithmetic::div_mod::lemma_fundamental_div_mod(e.score, 100);
    }
}

/// Every entry read back from stored lines carries such a bounded score.
pub proof fn lemma_parsed_entries_bounded(lines: Seq<Seq<char>>)
    ensures
        forall|k: int|
            0 <= k < parse_entries(lines).len() ==> 0 <= (#[trigger] parse_entries(lines)[k]).score
                && parse_entries(lines)[k].score / 100 < pow10(SCORE_DIGITS_LIMIT as nat),
    decreases lines.len(),
{
    if lines.len() > 0 {
        lemma_parsed_entries_bounded(lines.drop_last());
        lemma_parsed_score_bounded(lines.last());
        let rest = parse_entries(lines.drop_last());
        assert forall|k: int| 0 <= k < parse_entries(lines).len() implies 0 <= (
        #[trigger] parse_entries(lines)[k]).score && parse_entries(lines)[k].score / 100 < pow10(
            SCORE_DIGITS_LIMIT as nat,
        ) by {
            if k < rest.len() {
                assert(parse_entries(lines)[k] == rest[k]);
            }
        }
    }
}

/// Every entry of a merged board is the new entry or one of the old ones.
pub proof fn lemma_merge_elements(s: Seq<EntryV>, e: EntryV, cap: int)
    requires
        cap >= 0,
    ensures
        forall|k: int|
            0 <= k < merge_spec(s, e, cap).len() ==> (#[trigger] merge_spec(s, e, cap)[k]) == e
                || s.contains(merge_spec(s, e, cap)[k]),
{
    lemma_first_lower_props(s, e.score);
    let i = first_lower(s, e.score);
    let grown = s.take(i) + seq![e] + s.skip(i);
    assert forall|k: int|
        0 <= k < merge_spec(s, e, cap).len() implies (#[trigger] merge_spec(s, e, cap)[k]) == e
        || s.contains(merge_spec(s, e, cap)[k]) by {
        if grown.len() <= cap {
            assert(merge_spec(s, e, cap)[k] == grown[k]);
        } else {
            assert(merge_spec(s, e, cap)[k] == grown.take(cap)[k]);
            assert(grown.take(cap)[k] == grown[k]);
        }
        if k < i {
            assert(grown[k] == s.take(i)[k]);
            assert(s.take(i)[k] == s[k]);
        } else if k > i {
            assert(grown[k] == s.skip(i)[k - i - 1]);
            assert(s.skip(i)[k - i - 1] == s[k - 1]);
        } else {
            assert(grown[k] == e);
        }
    }
}

/// Writing entries out and reading them back is the identity, as long as
/// every score fits the digit limit.
pub proof fn lemma_entries_round_trip(entries: Seq<EntryV>)
    requires
        forall|k: int|
            0 <= k < entries.len() ==> 0 <= (#[trigger] entries[k]).score && entries[k].score / 100
                < pow10(SCORE_DIGITS_LIMIT as nat),
    ensures
        parse_entries(entries.map_values(|e: EntryV| entry_line(e))) == entries,
    decreases entries.len(),
{
    let lines = entries.map_values(|e: EntryV| entry_line(e));
    if entries.len() == 0 {
        assert(lines =~= Seq::<Seq<char>>::empty());
    } else {
        let front = entries.drop_last();
        assert forall|k: int| 0 <= k < front.len() implies 0 <= (#[trigger] front[k]).score
            && front[k].score / 100 < pow10(SCORE_DIGITS_LIMIT as nat) by {
            assert(front[k] == entries[k]);
        }
        lemma_entries_round_trip(front);
        lemma_line_round_trip(entries.last());
        assert(lines.drop_last() =~= front.map_values(|e: EntryV| entry_line(e)));
        assert(lines.last() == entry_line(entries.last()));
        assert(parse_entries(lines) =~= entries);
    }
}

/// The board a commit writes reads back as exactly the merged entries: the
/// persisted scoreboard survives a save/load round unchanged, as long as
/// the new score's integer part fits the digit limit.
pub proof fn lemma_saved_board_reloads(lines: Seq<Seq<char>>, name: Seq<char>, score: int, cap: int)
    requires
        cap >= 0,
        0 <= score,
        score / 100 < pow10(SCORE_DIGITS_LIMIT as nat),
    ensures
        parse_entries(save_score_spec(lines, name, score, cap)) == merge_spec(
            parse_entries(prune_trailing_empty(lines)),
            EntryV { name, score },
            cap,
        ),
{
    let entries = parse_entries(prune_trailing_empty(lines));
    let e = EntryV { name, score };
    let merged = merge_spec(entries, e, cap);
    lemma_parsed_entries_bounded(prune_trailing_empty(lines));
    lemma_merge_elements(entries, e, cap);
    assert forall|k: int| 0 <= k < merged.len() implies 0 <= (#[trigger] merged[k]).score
        && merged[k].score / 100 < pow10(SCORE_DIGITS_LIMIT as nat) by {
        if merged[k] != e {
            assert(entries.contains(merged[k]));
            let j = choose|j: int| 0 <= j < entries.len() && entries[j] == merged[k];
            assert(0 <= entries[j].score);
        }
    }
    lemma_entries_round_trip(merged);
}

/// Scores run highest-first.
pub open spec fn sorted_desc(s: Seq<EntryV>) -> bool {
    forall|i: int, j: int| 0 <= i < j < s.len() ==> s[i].score >= s[j].score
}

/// The first position whose score is strictly lower than `score`, or the
/// length if there is none: ties rank ahead of a new equal score.
pub open spec fn first_lower(s: Seq<EntryV>, score: int) -> int
    decreases s.len(),
{
    if s.len() == 0 {
        0
    } else if s[0].score < score {
        0
    } else {
        1 + first_lower(s.drop_first(), score)
    }
}

pub proof fn lemma_first_lower_at(s: Seq<EntryV>, score: int, k: int)
    requires
        0 <= k <= s.len(),
        forall|j: int| 0 <= j < k ==> s[j].score >= score,
        k < s.len() ==> s[k].score < score,
    ensures
        first_lower(s, score) == k,
    decreases k,
{
    if k > 0 {
        assert(s[0].score >= score);
        lemma_first_lower_at(s.drop_first(), score, k - 1);
    }
}

pub proof fn lemma_first_lower_props(s: Seq<EntryV>, score: int)
    ensures
        0 <= first_lower(s, score) <= s.len(),
        forall|j: int| 0 <= j < first_lower(s, score) ==> s[j].score >= score,
        first_lower(s, score) < s.len() ==> s[first_lower(s, score)].score < score,
    decreases s.len(),
{
    if s.len() > 0 && !(s[0].score < score) {
        let d = s.drop_first();
        lemma_first_lower_props(d, score);
        let fl = first_lower(s, score);
        assert(fl == 1 + first_lower(d, score));
        assert forall|j: int| 0 <= j < fl implies s[j].score >= score by {
            if j > 0 {
                assert(s[j] == d[j - 1]);
            }
        }
        if fl < s.len() {
            assert(s[fl] == d[fl - 1]);
        }
    }
}

/// Splice a new entry into a descending board: it lands just ahead of the
/// first strictly lower score, every lower entry shifts down one place, and
/// whatever then sits beyond the capacity is dropped.
pub open spec fn merge_spec(s: Seq<EntryV>, e: EntryV, cap: int) -> Seq<EntryV> {
    let i = first_lower(s, e.score);
    let grown = s.take(i) + seq![e] + s.skip(i);
    if grown.len() <= cap {
        grown
    } else {
        grown.take(cap)
    }
}

/// Merging keeps a descending board descending, whatever the new entry and
/// the capacity.
pub proof fn lemma_merge_preserves_sorted(s: Seq<EntryV>, e: EntryV, cap: int)
    requires
        sorted_desc(s),
        cap >= 0,
    ensures
        sorted_desc(merge_spec(s, e, cap)),
{
    lemma_first_lower_props(s, e.score);
    let i = first_lower(s, e.score);
    let grown = s.take(i) + seq![e] + s.skip(i);
    assert forall|a: int, b: int| 0 <= a < b < grown.len() implies grown[a].score
        >= grown[b].score by {
        if a < i {
            assert(grown[a] == s[a]);
        } else if a > i {
            assert(grown[a] == s[a - 1]);
        }
        if b < i {
            assert(grown[b] == s[b]);
        } else if b > i {
            assert(grown[b] == s[b - 1]);
        }
    }
    if grown.len() > cap {
        assert forall|a: int, b: int| 0 <= a < b < grown.take(cap).len() implies grown.take(
            cap,
        )[a].score >= grown.take(cap)[b].score by {
            assert(grown.take(cap)[a] == grown[a]);
            assert(grown.take(cap)[b] == grown[b]);
        }
    }
}

/// An entry that beats every existing score lands first.
pub proof fn lemma_merge_top(s: Seq<EntryV>, e: EntryV, cap: int)
    requires
        cap >= 1,
        forall|j: int| 0 <= j < s.len() ==> s[j].score < e.score,
    ensures
        merge_spec(s, e, cap).len() >= 1,
        merge_spec(s, e, cap)[0] == e,
{
    lemma_first_lower_at(s, e.score, 0);
    let grown = s.take(0) + seq![e] + s.skip(0);
    assert(grown[0] == e);
}

/// On a board below capacity, an entry that beats nobody is appended at the
/// end.
pub proof fn lemma_merge_append(s: Seq<EntryV>, e: EntryV, cap: int)
    requires
        s.len() < cap,
        forall|j: int| 0 <= j < s.len() ==> s[j].score >= e.score,
    ensures
        merge_spec(s, e, cap) == s.push(e),
{
    lemma_first_lower_at(s, e.score, s.len() as int);
    let grown = s.take(s.len() as int) + seq![e] + s.skip(s.len() as int);
    assert(grown =~= s.push(e));
}

/// On a full board, an entry that beats the current minimum pushes every
/// lower entry down one place and the old minimum falls off the end; the
/// board stays descending and at capacity.
pub proof fn lemma_merge_full_drops_min(s: Seq<EntryV>, e: EntryV, cap: int)
    requires
        sorted_desc(s),
        s.len() == cap,
        cap >= 1,
        s.last().score < e.score,
    ensures
        merge_spec(s, e, cap).len() == cap,
        sorted_desc(merge_spec(s, e, cap)),
        merge_spec(s, e, cap) == s.take(first_lower(s, e.score)) + seq![e] + s.subrange(
            first_lower(s, e.score),
            cap - 1,
        ),
{
    lemma_first_lower_props(s, e.score);
    lemma_merge_preserves_sorted(s, e, cap);
    let i = first_lower(s, e.score);
    assert(i < s.len()) by {
        if i == s.len() {
            assert(s[s.len() - 1].score >= e.score);
        }
    }
    let grown = s.take(i) + seq![e] + s.skip(i);
    assert(grown.take(cap) =~= s.take(i) + seq![e] + s.subrange(i, cap - 1));
}

/// Merging into an empty board yields the one-entry board.
pub proof fn lemma_merge_into_empty(e: EntryV, cap: int)
    requires
        cap >= 1,
    ensures
        merge_spec(Seq::empty(), e, cap) == seq![e],
{
    let s = Seq::<EntryV>::empty();
    lemma_first_lower_at(s, e.score, 0);
    assert(s.take(0) + seq![e] + s.skip(0) =~= seq![e]);
}

/// Splice a new entry into a descending board, dropping whatever ends up
/// beyond the capacity.
pub fn merge_scores(entries: &Vec<ScoreEntry>, new_entry: ScoreEntry, cap: usize) -> (r: Vec<
    ScoreEntry,
>)
    ensures
        r.deep_view() == merge_spec(entries.deep_view(), new_entry@, cap as int),
{
    let ghost dv = entries.deep_view();
    let ghost ne = new_entry@;
    let n = entries.len();
    let mut idx: usize = 0;
    while idx < n && entries[idx].score >= new_entry.score
        invariant
            0 <= idx <= n,
            n == entries.len(),
            dv == entries.deep_view(),
            ne == new_entry@,
            forall|j: int| 0 <= j < idx ==> dv[j].score >= ne.score,
        decreases n - idx,
    {
        assert(dv[idx as int] == entries@[idx as int]@);
        idx = idx + 1;
    }
    proof {
        if idx < n {
            assert(dv[idx as int] == entries@[idx as int]@);
        }
        lemma_first_lower_at(dv, ne.score, idx as int);
    }
    let mut r: Vec<ScoreEntry> = Vec::new();
    let mut k: usize = 0;
    proof {
        assert(r.deep_view() =~= dv.take(0));
    }
    while k < idx
        invariant
            0 <= k <= idx <= n,
            n == entries.len(),
            dv == entries.deep_view(),
            r.deep_view() =~= dv.take(k as int),
        decreases idx - k,
    {
        let ghost prev = r.deep_view();
        r.push(entries[k].clone());
        proof {
            assert(entries@[k as int]@ == dv[k as int]);
            assert(r.deep_view() =~= prev.push(dv[k as int]));
            assert(prev.push(dv[k as int]) =~= dv.take(k as int + 1));
        }
        k = k + 1;
    }
    let ghost prev = r.deep_view();
    r.push(new_entry);
    proof {
        assert(r.deep_view() =~= prev.push(ne));
    }
    let mut k2: usize = idx;
    proof {
        assert(dv.take(idx as int).push(ne) =~= dv.take(idx as int) + seq![ne] + dv.subrange(
            idx as int,
            idx as int,
        ));
    }
    while k2 < n
        invariant
            idx <= k2 <= n,
            n == entries.len(),
            dv == entries.deep_view(),
            r.deep_view() =~= dv.take(idx as int) + seq![ne] + dv.subrange(idx as int, k2 as int),
        decreases n - k2,
    {
        let ghost prev2 = r.deep_view();
        r.push(entries[k2].clone());
        proof {
            assert(entries@[k2 as int]@ == dv[k2 as int]);
            assert(r.deep_view() =~= prev2.push(dv[k2 as int]));
            assert(prev2.push(dv[k2 as int]) =~= dv.take(idx as int) + seq![ne] + dv.subrange(
                idx as int,
                k2 as int + 1,
            ));
        }
        k2 = k2 + 1;
    }
    proof {
        assert(dv.subrange(idx as int, n as int) =~= dv.skip(idx as int));
    }
    if r.len() > cap {
        r.truncate(cap);
        proof {
            let grown = dv.take(idx as int) + seq![ne] + dv.skip(idx as int);
            assert(r@.len() == cap);
            assert(r.deep_view() =~= grown.take(cap as int));
        }
    }
    r
}

/// Drop one trailing empty line, as a file ending in a newline produces.
pub open spec fn prune_trailing_empty(lines: Seq<Seq<char>>) -> Seq<Seq<char>> {
    if lines.len() > 0 && lines.last().len() == 0 {
        lines.drop_last()
    } else {
        lines
    }
}

/// The entries the stored lines denote, in order; lines that do not parse
/// are passed over.
pub open spec fn parse_entries(lines: Seq<Seq<char>>) -> Seq<EntryV>
    decreases lines.len(),
{
    if lines.len() == 0 {
        Seq::empty()
    } else {
        let rest = parse_entries(lines.drop_last());
        match parse_line_spec(lines.last()) {
            Some(e) => rest.push(e),
            None => rest,
        }
    }
}

/// The stored board after committing a result: the old lines are read back
/// (dropping one trailing empty line and passing over lines that do not
/// parse), the new entry is spliced in, and every entry is written out
/// again.
pub open spec fn save_score_spec(lines: Seq<Seq<char>>, name: Seq<char>, score: int, cap: int) -> Seq<
    Seq<char>,
> {
    let entries = parse_entries(prune_trailing_empty(lines));
    merge_spec(entries, EntryV { name, score }, cap).map_values(|e: EntryV| entry_line(e))
}

/// Compute the board to persist after a new result: the caller reads the
/// stored lines beforehand and writes the returned lines back in full.
pub fn save_score(existing_lines: Vec<String>, username: String, score: u64, scoreboard_size: usize) -> (r: Vec<String>)
    ensures
        r.deep_view() == save_score_spec(
            existing_lines.deep_view(),
            username@,
            score as int,
            scoreboard_size as int,
        ),
{
    let ghost dv0 = existing_lines.deep_view();
    let mut lines = existing_lines;
    if lines.len() > 0 && lines[lines.len() - 1].as_str().is_empty() {
        let ghost prev = lines.deep_view();
        lines.pop();
        proof {
            assert(prev.last().len() == 0);
            assert(lines.deep_view() =~= prev.drop_last());
            assert(lines.deep_view() =~= prune_trailing_empty(dv0));
        }
    } else {
        proof {
            if dv0.len() > 0 {
                assert(dv0.last() == lines@[lines@.len() - 1]@);
            }
            assert(lines.deep_view() =~= prune_trailing_empty(dv0));
        }
    }
    let ghost pruned = lines.deep_view();
    let mut entries: Vec<ScoreEntry> = Vec::new();
    let mut i: usize = 0;
    proof {
        assert(pruned.take(0) =~= Seq::<Seq<char>>::empty());
        assert(entries.deep_view() =~= parse_entries(pruned.take(0)));
    }
    while i < lines.len()
        invariant
            0 <= i <= lines@.len(),
            pruned == lines.deep_view(),
            entries.deep_view() =~= parse_entries(pruned.take(i as int)),
        decreases lines@.len() - i,
    {
        let ghost prev = entries.deep_view();
        let parsed = parse_score_line(lines[i].as_str());
        proof {
            assert(lines@[i as int]@ == pruned[i as int]);
            assert(pruned.take(i as int + 1).drop_last() =~= pruned.take(i as int));
            assert(pruned.take(i as int + 1).last() == pruned[i as int]);
        }
        match parsed {
            Some(e) => {
                entries.push(e);
                proof {
                    assert(entries.deep_view() =~= prev.push(e@));
                }
            },
            None => {},
        }
        i = i + 1;
    }
    proof {
        assert(pruned.take(pruned.len() as int) =~= pruned);
    }
    let new_entry = ScoreEntry { name: username, score };
    let merged = merge_scores(&entries, new_entry, scoreboard_size);
    let ghost mdv = merged.deep_view();
    let ghost line_of = |e: EntryV| entry_line(e);
    let mut out: Vec<String> = Vec::new();
    let mut k: usize = 0;
    proof {
        assert(out.deep_view() =~= mdv.map_values(line_of).take(0));
    }
    while k < merged.len()
        invariant
            0 <= k <= merged@.len(),
            mdv == merged.deep_view(),
            line_of == (|e: EntryV| entry_line(e)),
            out.deep_view() =~= mdv.map_values(line_of).take(k as int),
        decreases merged@.len() - k,
    {
        let ghost prev = out.deep_view();
        let line = format_score_line(merged[k].name.as_str(), merged[k].score);
        proof {
            assert(merged@[k as int]@ == mdv[k as int]);
            assert(EntryV { name: merged@[k as int].name@, score: merged@[k as int].score as int }
                == mdv[k as int]);
        }
        out.push(line);
        proof {
            assert(out.deep_view() =~= prev.push(line@));
            assert(mdv.map_values(line_of)[k as int] == entry_line(mdv[k as int]));
            assert(prev.push(line@) =~= mdv.map_values(line_of).take(k as int + 1));
        }
        k = k + 1;
    }
    proof {
        assert(mdv.map_values(line_of).take(mdv.len() as int) =~= mdv.map_values(line_of));
        assert(mdv.map_values(line_of) =~= mdv.map_values(|e: EntryV| entry_line(e)));
    }
    out
}

/// Render one scoreboard line from a name and a score in centi-points.
pub fn format_score_line(name: &str, score: u64) -> (r: String)
    ensures
        r@ == entry_line(EntryV { name: name@, score: score as int }),
{
    proof {
        reveal_strlit(" ");
        reveal_strlit(".");
        assert(" "@ =~= seq![' ']);
        assert("."@ =~= seq!['.']);
    }
    let mut s = name.to_owned();
    s.append(" ");
    let int_part = u64_to_string(score / 100);
    s.append(int_part.as_str());
    s.append(".");
    s.append(crate::text::digit_str((score / 10) % 10));
    s.append(crate::text::digit_str(score % 10));
    proof {
        assert(s@ =~= entry_line(EntryV { name: name@, score: score as int }));
    }
    s
}

} // verus!
