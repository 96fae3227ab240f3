//! Quotes: the records of a corpus file, the records that a shortness level
//! admits, and the course of the two requests, for a random quote and for
//! the quotes that hold a pattern.
//!
//! A request is a dialogue. The caller begins with the start event, does
//! what the action that comes back says, and returns with the event that the
//! action names, until an action ends the request. So the library decides
//! what is read and what is printed, and the caller reads and prints.
use crate::file::{candidates, get_file_sizes, Candidate, CorpusError, Listing};
use crate::random::{get_random_file_weighted, has_weight, random};
use crate::text::{
    contains, delimiter, occurs_in, parse_records, push_chars, records, texts, to_chars,
    to_string, views,
};
use vstd::arithmetic::div_mod::lemma_div_denominator;
use vstd::arithmetic::power2::{lemma2_to64, lemma_pow2_pos, lemma_pow2_unfold, pow2};
use vstd::math::max;
use vstd::prelude::*;

verus! {

/// The length in characters that a quote of shortness level 1 may have.
pub const SHORT: usize = 150;

/// The shortness level that asks for no quote at all.
pub const REFUSED: u8 = 255;

/// What is printed in place of a quote at level `REFUSED`.
pub const REFUSAL: &'static str = "WE GET IT, YOU WANT A SHORT FORTUNE";

/// Where the quotes are looked for when nothing else is configured.
pub const FORTUNE_DIR: &'static str = "fortunes";

/// Where the off-colour quotes are looked for when nothing else is
/// configured.
pub const FORTUNE_OFF_DIR: &'static str = "fortunes_off";

/// `len` halved `times` times, each time rounded down.
pub open spec fn halved(len: nat, times: nat) -> nat
    decreases times,
{
    if times == 0 {
        len
    } else {
        halved(len, (times - 1) as nat) / 2
    }
}

/// The length that a quote may have at shortness level `level`, which is 1
/// or more: `SHORT` halved once for each level above 1, and never under 1.
pub open spec fn target_length_of(level: u8) -> nat
    recommends
        level >= 1,
{
    max(1, halved(SHORT as nat, (level - 1) as nat) as int) as nat
}

/// `record` is short enough for `level`.
pub open spec fn fits(level: u8, record: Seq<char>) -> bool {
    record.len() <= target_length_of(level)
}

/// Some record of `records` is short enough for `level`.
pub open spec fn has_short_record(level: u8, records: Seq<Seq<char>>) -> bool {
    exists|i: int| 0 <= i < records.len() && fits(level, #[trigger] records[i])
}

/// The records that a quote is drawn from at `level`: at level 0 all of
/// them, else those that are short enough, and all of them again where none
/// is short enough.
pub open spec fn pool(level: u8, records: Seq<Seq<char>>) -> Seq<Seq<char>> {
    let short = records.filter(|r: Seq<char>| fits(level, r));
    if level == 0 || short.len() == 0 {
        records
    } else {
        short
    }
}

/// The records of `records` at the indices `picks`.
pub open spec fn picked(records: Seq<Vec<char>>, picks: Seq<usize>) -> Seq<Seq<char>> {
    picks.map_values(|i: usize| records[i as int]@)
}

/// The records of `text` that hold `pattern`, in their order.
pub open spec fn matching(pattern: Seq<char>, text: Seq<char>) -> Seq<Seq<char>> {
    records(text).filter(|r: Seq<char>| occurs_in(pattern, r))
}

/// The records `found` as they are printed: each is followed by a line that
/// holds a percent sign.
pub open spec fn listed(found: Seq<Seq<char>>) -> Seq<char> {
    found.map_values(|r: Seq<char>| r + delimiter()).flatten()
}

/// What a search for `pattern` prints: for each file in turn, the records
/// that hold the pattern.
pub open spec fn search_output(pattern: Seq<char>, files: Seq<Seq<char>>) -> Seq<char> {
    files.map_values(|text: Seq<char>| listed(matching(pattern, text))).flatten()
}

/// Halving `times` times divides by the power of two.
pub proof fn lemma_halved(len: nat, times: nat)
    ensures
        halved(len, times) == len / pow2(times),
    decreases times,
{
    if times == 0 {
        lemma2_to64();
    } else {
        let before = (times - 1) as nat;
        lemma_halved(len, before);
        lemma_pow2_pos(before);
        lemma_pow2_unfold(times);
        lemma_div_denominator(len as int, pow2(before) as int, 2);
        assert(pow2(before) * 2 == pow2(times));
    }
}

/// The target length at `level` is `SHORT` shifted right by `level - 1`
/// bits, which is `SHORT` divided by that power of two, and 1 where that is
/// zero. From level 8 on it is 1.
pub proof fn lemma_target_length(level: u8)
    requires
        level >= 1,
    ensures
        target_length_of(level) == max(1, ((SHORT as u64) >> ((level - 1) as u64)) as int),
        target_length_of(level) == max(1, SHORT as int / (pow2((level - 1) as nat) as int)),
        level >= 8 ==> target_length_of(level) == 1,
{
    let shift = (level - 1) as u64;
    lemma_halved(SHORT as nat, shift as nat);
    if level <= 64 {
        vstd::bits::lemma_u64_shr_is_div(SHORT as u64, shift);
    }
    if level >= 8 {
        assert(halved(SHORT as nat, 8) == 0) by {
            reveal_with_fuel(halved, 9);
        }
        if level >= 9 {
            lemma_halved_small(SHORT as nat, 8, shift as nat);
        } else {
            assert(halved(SHORT as nat, 7) == 1) by {
                reveal_with_fuel(halved, 8);
            }
        }
        assert(shift >= 8 ==> 150u64 >> shift == 0) by (bit_vector);
    }
}

/// Once halving has reached zero it stays there.
proof fn lemma_halved_small(len: nat, reached: nat, times: nat)
    requires
        reached <= times,
        halved(len, reached) == 0,
    ensures
        halved(len, times) == 0,
    decreases times,
{
    if times > reached {
        lemma_halved_small(len, reached, (times - 1) as nat);
    }
}

/// A quote that is drawn from the pool is a record, and it is short enough
/// wherever the level asks for a short one and some record is short enough.
pub proof fn lemma_pool(level: u8, records: Seq<Seq<char>>, quote: Seq<char>)
    requires
        pool(level, records).contains(quote),
    ensures
        records.contains(quote),
        level >= 1 && has_short_record(level, records) ==> fits(level, quote),
{
    let short_enough = |r: Seq<char>| fits(level, r);
    let short = records.filter(short_enough);
    if level == 0 || short.len() == 0 {
        if level >= 1 {
            assert forall|i: int| 0 <= i < records.len() implies !fits(
                level,
                #[trigger] records[i],
            ) by {
                if fits(level, records[i]) {
                    records.lemma_filter_contains(short_enough, i);
                }
            }
        }
    } else {
        records.lemma_filter_contains_rev(short_enough, quote);
        let k = choose|k: int| 0 <= k < short.len() && short[k] == quote;
        records.lemma_filter_pred(short_enough, k);
    }
}

/// While there is a record there is one to draw: no level leaves the pool
/// empty.
pub proof fn lemma_pool_is_not_empty(level: u8, records: Seq<Seq<char>>)
    ensures
        pool(level, records).len() == 0 <==> records.len() == 0,
{
    records.lemma_filter_len(|r: Seq<char>| fits(level, r));
}

/// The length that a quote may have at shortness level `level`.
pub fn target_length(level: u8) -> (len: usize)
    requires
        level >= 1,
    ensures
        len == target_length_of(level),
{
    let mut len: usize = SHORT;
    let mut done: u8 = 1;
    while done < level
        invariant
            1 <= done <= level,
            len == halved(SHORT as nat, (done - 1) as nat),
        decreases level - done,
    {
        len = len / 2;
        done += 1;
    }
    if len < 1 {
        len = 1;
    }
    len
}

/// The indices of the records that a quote is drawn from at `level`.
pub fn pool_indices(level: u8, records: &Vec<Vec<char>>) -> (picks: Vec<usize>)
    ensures
        picked(records@, picks@) == pool(level, views(records@)),
        forall|k: int| 0 <= k < picks.len() ==> #[trigger] picks[k] < records.len(),
        forall|j: int, k: int| 0 <= j < k < picks.len() ==> picks[j] < picks[k],
{
    let ghost all = views(records@);
    let ghost short_enough = |r: Seq<char>| fits(level, r);
    let mut picks: Vec<usize> = Vec::new();
    if level >= 1 {
        let target = target_length(level);
        let mut i: usize = 0;
        proof {
            assert(all.take(0).filter(short_enough) =~= Seq::<Seq<char>>::empty()) by {
                reveal(Seq::filter);
            }
        }
        while i < records.len()
            invariant
                i <= records.len(),
                all == views(records@),
                short_enough == |r: Seq<char>| fits(level, r),
                target == target_length_of(level),
                picked(records@, picks@) == all.take(i as int).filter(short_enough),
                forall|k: int| 0 <= k < picks.len() ==> #[trigger] picks[k] < i,
                forall|j: int, k: int| 0 <= j < k < picks.len() ==> picks[j] < picks[k],
            decreases records.len() - i,
        {
            proof {
                assert(all.take(i + 1) =~= all.take(i as int).push(all[i as int]));
                all.take(i as int).lemma_filter_push(all[i as int], short_enough);
            }
            if records[i].len() <= target {
                let ghost before = picks@;
                picks.push(i);
                assert(picked(records@, picks@) =~= picked(records@, before).push(all[i as int]));
            }
            i += 1;
        }
        proof {
            assert(all.take(i as int) =~= all);
        }
        if picks.len() > 0 {
            return picks;
        }
    }
    let mut i: usize = 0;
    while i < records.len()
        invariant
            i <= records.len(),
            picks.len() == i,
            forall|k: int| 0 <= k < i ==> picks[k] == k,
        decreases records.len() - i,
    {
        picks.push(i);
        i += 1;
    }
    assert(picked(records@, picks@) =~= views(records@));
    picks
}

/// The quote that the draw `k` takes from the pool `picks` of `records`.
pub fn drawn_quote(records: &Vec<Vec<char>>, picks: &Vec<usize>, k: usize) -> (quote: String)
    requires
        k < picks.len(),
        forall|i: int| 0 <= i < picks.len() ==> #[trigger] picks[i] < records.len(),
    ensures
        quote@ == picked(records@, picks@)[k as int],
{
    to_string(&records[picks[k]])
}

/// The quote records of `text`, in the order in which they stand in it.
pub fn parse_quotes(text: &str) -> (quotes: Vec<String>)
    ensures
        texts(quotes@) == records(text@),
{
    let chars = to_chars(text);
    let found = parse_records(&chars);
    let mut quotes: Vec<String> = Vec::new();
    let mut i: usize = 0;
    while i < found.len()
        invariant
            i <= found.len(),
            texts(quotes@) == views(found@).take(i as int),
        decreases found.len() - i,
    {
        let ghost before = quotes@;
        quotes.push(to_string(&found[i]));
        assert(texts(quotes@) =~= texts(before).push(found@[i as int]@));
        assert(views(found@).take(i + 1) =~= views(found@).take(i as int).push(found@[i as int]@));
        i += 1;
    }
    assert(views(found@).take(i as int) =~= views(found@));
    quotes
}

/// What the caller of `get_quote` brings along.
#[derive(Debug, PartialEq, Eq)]
pub enum Event {
    /// Nothing yet: the request begins.
    Start,
    /// What a look at the corpus location found.
    Scanned(Listing),
    /// The contents of the file that was to be read.
    Loaded(String),
}

/// What the caller of `get_quote` is to do next.
#[derive(Debug, PartialEq, Eq)]
pub enum Action {
    /// Print `REFUSAL` and end with success.
    Refuse,
    /// Look at the corpus location and come back with `Event::Scanned`.
    Scan,
    /// Read this file and come back with `Event::Loaded`.
    Read(Candidate),
    /// Print this quote on a line of its own and end with success.
    Print(String),
    /// Print nothing and end with success: the file holds no quote.
    Silent,
    /// Report this error and end with failure.
    Fail(CorpusError),
}

/// The action that `get_quote` takes on `event` at a level other than
/// `REFUSED`, as far as it does not depend on chance.
pub open spec fn follows(level: u8, event: Event, action: Action) -> bool {
    match event {
        Event::Start => action == Action::Scan,
        Event::Scanned(listing) => match candidates(listing) {
            Ok(files) => if has_weight(files) {
                action matches Action::Read(file) && file.size > 0 && files.contains(file)
            } else {
                action == Action::Fail(CorpusError::EmptyCorpus)
            },
            Err(e) => action == Action::Fail(e),
        },
        Event::Loaded(text) => if records(text@).len() == 0 {
            action == Action::Silent
        } else {
            action matches Action::Print(quote) && pool(level, records(text@)).contains(quote@)
        },
    }
}

/// One step of a request for a random quote at shortness level
/// `quote_size`. The request begins with `Event::Start`; the caller does
/// what the action says and comes back with the event that the action names,
/// until the action ends the request.
///
/// At level `REFUSED` the step refuses whatever the event is, so that no
/// file is looked at. At any other level the location is scanned, one of its
/// files is chosen with a chance in proportion to its size and read, and one
/// of its records is drawn, each of the pool with the same chance.
pub fn get_quote(quote_size: &u8, event: Event) -> (action: Action)
    ensures
        *quote_size == REFUSED ==> action == Action::Refuse,
        *quote_size != REFUSED ==> follows(*quote_size, event, action),
        action matches Action::Print(quote) ==> ({
            &&& event matches Event::Loaded(text)
            &&& records(text@).contains(quote@)
            &&& *quote_size >= 1 && has_short_record(*quote_size, records(text@)) ==> fits(
                *quote_size,
                quote@,
            )
        }),
{
    let level = *quote_size;
    if level == REFUSED {
        return Action::Refuse;
    }
    match event {
        Event::Start => Action::Scan,
        Event::Scanned(listing) => match get_file_sizes(&listing) {
            Ok(files) => match get_random_file_weighted(&files) {
                Ok(file) => Action::Read(file),
                Err(e) => Action::Fail(e),
            },
            Err(e) => Action::Fail(e),
        },
        Event::Loaded(text) => {
            let chars = to_chars(text.as_str());
            let found = parse_records(&chars);
            if found.len() == 0 {
                return Action::Silent;
            }
            let picks = pool_indices(level, &found);
            proof {
                let short_enough = |r: Seq<char>| fits(level, r);
                views(found@).lemma_filter_len(short_enough);
                assert(picked(found@, picks@).len() == picks.len());
            }
            let quote = drawn_quote(&found, &picks, random(picks.len()));
            proof {
                lemma_pool(level, records(text@), quote@);
            }
            Action::Print(quote)
        },
    }
}

/// What a search for `pattern` in the files with the contents `files`
/// prints: each record that holds the pattern, followed by a line that holds
/// a percent sign. The files come in their order, and so do the records of
/// each file. The pattern is plain text that a record holds as a substring;
/// no character of it has a meaning of its own.
pub fn search_files(pattern: &str, files: &Vec<String>) -> (output: String)
    ensures
        output@ == search_output(pattern@, texts(files@)),
{
    let sought = to_chars(pattern);
    let ghost all = texts(files@);
    let ghost per_file = |text: Seq<char>| listed(matching(pattern@, text));
    let ghost holds = |r: Seq<char>| occurs_in(pattern@, r);
    let ghost line = |r: Seq<char>| r + delimiter();
    let mut output = String::new();
    let mut i: usize = 0;
    proof {
        assert(all.take(0).map_values(per_file) =~= Seq::<Seq<char>>::empty());
    }
    while i < files.len()
        invariant
            i <= files.len(),
            sought@ == pattern@,
            all == texts(files@),
            per_file == |text: Seq<char>| listed(matching(pattern@, text)),
            holds == |r: Seq<char>| occurs_in(pattern@, r),
            line == |r: Seq<char>| r + delimiter(),
            output@ == all.take(i as int).map_values(per_file).flatten(),
        decreases files.len() - i,
    {
        let chars = to_chars(files[i].as_str());
        let found = parse_records(&chars);
        let ghost before = output@;
        let ghost quotes = views(found@);
        let mut j: usize = 0;
        proof {
            assert(quotes.take(0).filter(holds) =~= Seq::<Seq<char>>::empty()) by {
                reveal(Seq::filter);
            }
            assert(quotes.take(0).filter(holds).map_values(line) =~= Seq::<Seq<char>>::empty());
        }
        while j < found.len()
            invariant
                j <= found.len(),
                sought@ == pattern@,
                quotes == views(found@),
                holds == |r: Seq<char>| occurs_in(pattern@, r),
                line == |r: Seq<char>| r + delimiter(),
                output@ == before + quotes.take(j as int).filter(holds).map_values(line).flatten(),
            decreases found.len() - j,
        {
            let ghost so_far = quotes.take(j as int).filter(holds);
            proof {
                assert(quotes.take(j + 1) =~= quotes.take(j as int).push(quotes[j as int]));
                quotes.take(j as int).lemma_filter_push(quotes[j as int], holds);
            }
            if contains(&found[j], &sought) {
                push_chars(&mut output, &found[j]);
                output.push('\n');
                output.push('%');
                output.push('\n');
                proof {
                    let quote = quotes[j as int];
                    assert(so_far.push(quote).map_values(line) =~= so_far.map_values(line).push(
                        quote + delimiter(),
                    ));
                    so_far.map_values(line).lemma_flatten_push(quote + delimiter());
                    assert(output@ =~= before + so_far.map_values(line).flatten() + (quote
                        + delimiter()));
                }
            }
            j += 1;
        }
        proof {
            assert(quotes.take(j as int) =~= quotes);
            let text = all[i as int];
            assert(quotes == records(text));
            assert(per_file(text) == quotes.filter(holds).map_values(line).flatten());
            assert(all.take(i + 1).map_values(per_file) =~= all.take(i as int).map_values(
                per_file,
            ).push(per_file(text)));
            all.take(i as int).map_values(per_file).lemma_flatten_push(per_file(text));
        }
        i += 1;
    }
    proof {
        assert(all.take(i as int) =~= all);
    }
    output
}

/// What the caller of `search_fortunes` brings along.
#[derive(Debug, PartialEq, Eq)]
pub enum SearchEvent {
    /// Nothing yet: the search begins.
    Start,
    /// What a look at the corpus location found.
    Scanned(Listing),
    /// The contents of the files that were to be read, in the order in
    /// which they were asked for.
    Loaded(Vec<String>),
}

/// What the caller of `search_fortunes` is to do next.
#[derive(Debug, PartialEq, Eq)]
pub enum SearchAction {
    /// Look at the corpus location and come back with `SearchEvent::Scanned`.
    Scan,
    /// Read these files, each from its beginning to its end, and come back
    /// with `SearchEvent::Loaded`.
    Read(Vec<Candidate>),
    /// Print this text as it stands and end with success.
    Print(String),
    /// Report this error and end with failure.
    Fail(CorpusError),
}

/// The action that `search_fortunes` takes on `event`.
pub open spec fn search_follows(pattern: Seq<char>, event: SearchEvent, action: SearchAction) -> bool {
    match event {
        SearchEvent::Start => action == SearchAction::Scan,
        SearchEvent::Scanned(listing) => match candidates(listing) {
            Ok(files) => action matches SearchAction::Read(asked) && asked@ == files,
            Err(e) => action == SearchAction::Fail(e),
        },
        SearchEvent::Loaded(files) => action matches SearchAction::Print(output) && output@
            == search_output(pattern, texts(files@)),
    }
}

/// One step of a search for `pattern`. The search begins with
/// `SearchEvent::Start`; the caller does what the action says and comes back
/// with the event that the action names, until the action ends the search.
///
/// The location is scanned, each of its candidates is read, whatever its
/// size, and what `search_files` finds in them is printed. A location that
/// cannot be scanned ends the search with its error.
pub fn search_fortunes(pattern: &str, event: SearchEvent) -> (action: SearchAction)
    ensures
        search_follows(pattern@, event, action),
{
    match event {
        SearchEvent::Start => SearchAction::Scan,
        SearchEvent::Scanned(listing) => match get_file_sizes(&listing) {
            Ok(files) => SearchAction::Read(files),
            Err(e) => SearchAction::Fail(e),
        },
        SearchEvent::Loaded(files) => SearchAction::Print(search_files(pattern, &files)),
    }
}

/// The directory of the quotes: the configured one, or `FORTUNE_DIR`
/// where none is configured.
pub fn get_fortune_dir(configured: Option<String>) -> (dir: String)
    ensures
        dir@ == (match configured {
            Some(path) => path@,
            None => FORTUNE_DIR@,
        }),
{
    match configured {
        Some(path) => path,
        None => FORTUNE_DIR.to_owned(),
    }
}

/// The directory of the off-colour quotes: the configured one, or
/// `FORTUNE_OFF_DIR` where none is configured.
pub fn get_fortune_off_dir(configured: Option<String>) -> (dir: String)
    ensures
        dir@ == (match configured {
            Some(path) => path@,
            None => FORTUNE_OFF_DIR@,
        }),
{
    match configured {
        Some(path) => path,
        None => FORTUNE_OFF_DIR.to_owned(),
    }
}

} // verus!
