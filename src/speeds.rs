//! The speed-trigger text format: one trigger per line, written
//! `<time> <speed multiplier> [interpolate]`, with blank lines and lines
//! starting with `#` skipped.
//!
//! Numbers are carried as IEEE 754 binary32 bit patterns. Turning a field into
//! such a number, and a number into its shortest decimal text, is left to the
//! caller: decoding takes the numbers read from each line's first two fields,
//! and encoding takes the text of each trigger's two numbers.
use vstd::prelude::*;
use crate::text::{
    chars_of, is_line_break, is_space, is_space_char, lemma_nonblank_push, lemma_pieces_append,
    lemma_pieces_step, line_pieces, nonblank, pieces, push_char, space_pieces, words_of,
};

verus! {

/// A line of a speeds text that holds words and is not a comment: its index
/// among all lines (counting from 0, skipped lines included) and its words.
pub struct SpeedLine {
    pub line_number: usize,
    pub fields: Vec<String>,
}

/// A line number and the words on that line.
pub type LineView = (int, Seq<Seq<char>>);

/// The texts of a list of strings.
pub open spec fn texts(v: Seq<String>) -> Seq<Seq<char>> {
    v.map_values(|f: String| f@)
}

impl View for SpeedLine {
    type V = LineView;

    open spec fn view(&self) -> LineView {
        (self.line_number as int, texts(self.fields@))
    }
}

/// The views of a list of speed lines.
pub open spec fn line_views(v: Seq<SpeedLine>) -> Seq<LineView> {
    v.map_values(|l: SpeedLine| l@)
}

/// Whether a line with these words holds a trigger: it has words and does not
/// start with `#`.
pub open spec fn is_trigger_line(words: Seq<Seq<char>>) -> bool {
    words.len() > 0 && words[0].len() > 0 && words[0][0] != '#'
}

/// Each line with its index and words.
pub open spec fn numbered(lines: Seq<Seq<char>>) -> Seq<LineView> {
    lines.map(|i: int, l: Seq<char>| (i, words_of(l)))
}

/// The lines among `ls` that hold a trigger.
pub open spec fn trigger_lines(ls: Seq<LineView>) -> Seq<LineView> {
    ls.filter(|l: LineView| is_trigger_line(l.1))
}

/// The lines of `s` that hold a trigger, numbered by their index among all
/// lines of `s`.
pub open spec fn speed_lines_of(s: Seq<char>) -> Seq<LineView> {
    trigger_lines(numbered(line_pieces(s)))
}

/// The trigger lines among a sequence with one more line.
pub proof fn lemma_trigger_lines_push(ls: Seq<LineView>, l: LineView)
    ensures
        trigger_lines(ls.push(l)) == if is_trigger_line(l.1) {
            trigger_lines(ls).push(l)
        } else {
            trigger_lines(ls)
        },
{
    reveal(Seq::filter);
    assert(ls.push(l).drop_last() =~= ls);
}

/// Appends a finished line to `done` when it holds a trigger.
fn finish_line(done: &mut Vec<SpeedLine>, line_number: usize, fields: Vec<String>, word: String)
    ensures
        ({
            let words = if word@.len() > 0 {
                texts(fields@).push(word@)
            } else {
                texts(fields@)
            };
            line_views(final(done)@) == if is_trigger_line(words) {
                line_views(old(done)@).push((line_number as int, words))
            } else {
                line_views(old(done)@)
            }
        }),
{
    let ghost words = if word@.len() > 0 {
        texts(fields@).push(word@)
    } else {
        texts(fields@)
    };
    let ghost before = line_views(done@);
    let mut fields = fields;
    if word.as_str().unicode_len() > 0 {
        fields.push(word);
    }
    assert(texts(fields@) =~= words);
    if fields.len() > 0 && fields[0].as_str().unicode_len() > 0 && fields[0].as_str().get_char(0)
        != '#' {
        assert(words[0] == fields@[0]@);
        assert(is_trigger_line(words));
        done.push(SpeedLine { line_number, fields });
        assert(line_views(done@) =~= before.push((line_number as int, words)));
    } else {
        assert(!is_trigger_line(words));
        assert(line_views(done@) =~= before);
    }
}

/// Splits a speeds text into its trigger lines: the lines that hold words and
/// do not start with `#`, each with its index among all lines and its words.
pub fn speed_lines(content: &str) -> (r: Vec<SpeedLine>)
    ensures
        line_views(r@) == speed_lines_of(content@),
{
    let chars = chars_of(content);
    let mut done: Vec<SpeedLine> = Vec::new();
    let mut line_number: usize = 0;
    let mut fields: Vec<String> = Vec::new();
    let mut word = String::new();
    let mut i: usize = 0;
    proof {
        reveal_with_fuel(pieces, 1);
        reveal(Seq::filter);
        assert(chars@.take(0) =~= Seq::<char>::empty());
        assert(line_pieces(chars@.take(0)).drop_last() =~= Seq::<Seq<char>>::empty());
        assert(numbered(Seq::<Seq<char>>::empty()) =~= Seq::<LineView>::empty());
        assert(space_pieces(Seq::<char>::empty()).drop_last() =~= Seq::<Seq<char>>::empty());
        assert(texts(fields@) =~= Seq::<Seq<char>>::empty());
    }
    while i < chars.len()
        invariant
            i <= chars.len(),
            line_number <= i,
            ({
                let ls = line_pieces(chars@.take(i as int));
                let ws = space_pieces(ls.last());
                &&& ls.len() >= 1
                &&& line_number == ls.len() - 1
                &&& ws.len() >= 1
                &&& word@ == ws.last()
                &&& texts(fields@) == nonblank(ws.drop_last())
                &&& line_views(done@) == trigger_lines(numbered(ls.drop_last()))
            }),
        decreases chars.len() - i,
    {
        let c = chars[i];
        let ghost pre = chars@.take(i as int);
        let ghost ls = line_pieces(pre);
        let ghost ws = space_pieces(ls.last());
        assert(chars@.take(i + 1) =~= pre.push(c));
        proof {
            lemma_pieces_step(pre, c, |c: char| is_line_break(c));
        }
        if c == '\n' {
            let ghost words = if word@.len() > 0 {
                texts(fields@).push(word@)
            } else {
                texts(fields@)
            };
            proof {
                lemma_nonblank_push(ws.drop_last(), ws.last());
                assert(ws.drop_last().push(ws.last()) =~= ws);
                assert(words_of(ls.last()) == words);
                assert(numbered(ls.drop_last()).push((ls.len() - 1, words)) =~= numbered(ls));
                lemma_trigger_lines_push(numbered(ls.drop_last()), (ls.len() - 1, words));
            }
            finish_line(&mut done, line_number, fields, word);
            fields = Vec::new();
            word = String::new();
            line_number = line_number + 1;
            proof {
                let ls2 = line_pieces(chars@.take(i + 1));
                assert(ls2.drop_last() =~= ls);
                reveal_with_fuel(pieces, 1);
                assert(texts(fields@) =~= nonblank(space_pieces(ls2.last()).drop_last()));
            }
        } else {
            let ghost line = ls.last();
            proof {
                lemma_pieces_step(line, c, |c: char| is_space(c));
                assert(line_pieces(chars@.take(i + 1)).drop_last() =~= ls.drop_last());
            }
            if is_space_char(c) {
                let ghost before = texts(fields@);
                if word.as_str().unicode_len() > 0 {
                    fields.push(word);
                    assert(texts(fields@) =~= before.push(ws.last()));
                }
                word = String::new();
                proof {
                    lemma_nonblank_push(ws.drop_last(), ws.last());
                    assert(ws.drop_last().push(ws.last()) =~= ws);
                    assert(space_pieces(line.push(c)).drop_last() =~= ws);
                }
            } else {
                push_char(&mut word, c);
                proof {
                    assert(space_pieces(line.push(c)).drop_last() =~= ws.drop_last());
                }
            }
        }
        i = i + 1;
    }
    assert(chars@.take(i as int) =~= chars@);
    let ghost ls = line_pieces(chars@);
    let ghost ws = space_pieces(ls.last());
    let ghost words = if word@.len() > 0 {
        texts(fields@).push(word@)
    } else {
        texts(fields@)
    };
    proof {
        assert(chars@.take(i as int) =~= chars@);
        lemma_nonblank_push(ws.drop_last(), ws.last());
        assert(ws.drop_last().push(ws.last()) =~= ws);
        assert(words_of(ls.last()) == words);
        assert(numbered(ls.drop_last()).push((ls.len() - 1, words)) =~= numbered(ls));
        lemma_trigger_lines_push(numbered(ls.drop_last()), (ls.len() - 1, words));
    }
    finish_line(&mut done, line_number, fields, word);
    done
}

/// One speed change: `time` and `speed_multiplier` are IEEE 754 binary32 bit
/// patterns, and the flag says whether the speed eases into the next trigger.
#[derive(Clone, Copy, Debug, PartialEq, Eq, Structural)]
pub struct SpeedTrigger {
    pub time: u32,
    pub speed_multiplier: u32,
    pub interpolate_to_next_trigger: bool,
}

/// An ordered list of speed triggers.
#[derive(Debug)]
pub struct SpeedTriggersData {
    pub triggers: Vec<SpeedTrigger>,
}

impl View for SpeedTriggersData {
    type V = Seq<SpeedTrigger>;

    open spec fn view(&self) -> Seq<SpeedTrigger> {
        self.triggers@
    }
}

/// The numbers read from a trigger line's first two fields, as binary32 bit
/// patterns: `None` where the field is missing or is not a number.
#[derive(Clone, Copy, Debug, PartialEq, Eq, Structural)]
pub struct LineNumbers {
    pub time: Option<u32>,
    pub speed_multiplier: Option<u32>,
}

/// Why a speeds text does not decode; each names the line's index.
#[derive(Clone, Copy, Debug, PartialEq, Eq, Structural)]
pub enum SpeedsError {
    /// The line has fewer than 2 or more than 3 fields.
    FieldCount { line: usize, found: usize },
    /// The first field is not a number.
    InvalidTime { line: usize },
    /// The second field is not a number.
    InvalidSpeedMultiplier { line: usize },
    /// The third field is neither `true` nor `false`.
    InvalidInterpolation { line: usize },
}

/// The text `true`.
pub open spec fn true_text() -> Seq<char> {
    seq!['t', 'r', 'u', 'e']
}

/// The text `false`.
pub open spec fn false_text() -> Seq<char> {
    seq!['f', 'a', 'l', 's', 'e']
}

/// The boolean that `s` spells, if it spells one.
pub open spec fn bool_of(s: Seq<char>) -> Option<bool> {
    if s == true_text() {
        Some(true)
    } else if s == false_text() {
        Some(false)
    } else {
        None
    }
}

/// The trigger that a line holds, given the numbers read from its fields, or
/// the first thing wrong with it: its field count, then its time, its speed
/// multiplier, and its interpolation flag, which is `false` when absent.
pub open spec fn line_trigger(line: LineView, numbers: LineNumbers) -> Result<
    SpeedTrigger,
    SpeedsError,
> {
    let n = line.0 as usize;
    let fields = line.1;
    if fields.len() < 2 || fields.len() > 3 {
        Err(SpeedsError::FieldCount { line: n, found: fields.len() as usize })
    } else if numbers.time is None {
        Err(SpeedsError::InvalidTime { line: n })
    } else if numbers.speed_multiplier is None {
        Err(SpeedsError::InvalidSpeedMultiplier { line: n })
    } else if fields.len() == 3 && bool_of(fields[2]) is None {
        Err(SpeedsError::InvalidInterpolation { line: n })
    } else {
        Ok(
            SpeedTrigger {
                time: numbers.time->0,
                speed_multiplier: numbers.speed_multiplier->0,
                interpolate_to_next_trigger: fields.len() == 3 && bool_of(fields[2]) == Some(true),
            },
        )
    }
}

/// The triggers of `lines`, in order, or the error of the first line that has
/// one; `numbers[i]` holds the numbers read from `lines[i]`.
pub open spec fn decode_lines(lines: Seq<LineView>, numbers: Seq<LineNumbers>) -> Result<
    Seq<SpeedTrigger>,
    SpeedsError,
>
    decreases lines.len(),
{
    if lines.len() == 0 {
        Ok(Seq::empty())
    } else {
        match decode_lines(lines.drop_last(), numbers.drop_last()) {
            Err(e) => Err(e),
            Ok(ts) => match line_trigger(lines.last(), numbers.last()) {
                Err(e) => Err(e),
                Ok(t) => Ok(ts.push(t)),
            },
        }
    }
}

/// An error on a prefix of the lines is the error of all of them.
pub proof fn lemma_decode_error_persists(
    lines: Seq<LineView>,
    numbers: Seq<LineNumbers>,
    k: int,
    e: SpeedsError,
)
    requires
        0 <= k <= lines.len(),
        lines.len() == numbers.len(),
        decode_lines(lines.take(k), numbers.take(k)) == Err::<Seq<SpeedTrigger>, SpeedsError>(e),
    ensures
        decode_lines(lines, numbers) == Err::<Seq<SpeedTrigger>, SpeedsError>(e),
    decreases lines.len() - k,
{
    if k < lines.len() {
        assert(lines.take(k + 1).drop_last() =~= lines.take(k));
        assert(numbers.take(k + 1).drop_last() =~= numbers.take(k));
        lemma_decode_error_persists(lines, numbers, k + 1, e);
    } else {
        assert(lines.take(k) =~= lines);
        assert(numbers.take(k) =~= numbers);
    }
}

/// Reads a boolean literal, as `bool::from_str` does.
fn parse_bool(s: &String) -> (r: Option<bool>)
    ensures
        r == bool_of(s@),
{
    let t = String::from_str("true");
    let f = String::from_str("false");
    proof {
        reveal_strlit("true");
        reveal_strlit("false");
        assert(t@ =~= true_text());
        assert(f@ =~= false_text());
    }
    if *s == t {
        Some(true)
    } else if *s == f {
        Some(false)
    } else {
        None
    }
}

/// The trigger on one line, or the line's error.
fn read_line(line: &SpeedLine, numbers: LineNumbers) -> (r: Result<SpeedTrigger, SpeedsError>)
    ensures
        r == line_trigger(line@, numbers),
{
    let n = line.line_number;
    let count = line.fields.len();
    if count < 2 || count > 3 {
        return Err(SpeedsError::FieldCount { line: n, found: count });
    }
    let time = match numbers.time {
        Some(t) => t,
        None => {
            return Err(SpeedsError::InvalidTime { line: n });
        },
    };
    let speed_multiplier = match numbers.speed_multiplier {
        Some(s) => s,
        None => {
            return Err(SpeedsError::InvalidSpeedMultiplier { line: n });
        },
    };
    let interpolate_to_next_trigger = if count == 3 {
        match parse_bool(&line.fields[2]) {
            Some(b) => b,
            None => {
                return Err(SpeedsError::InvalidInterpolation { line: n });
            },
        }
    } else {
        false
    };
    Ok(SpeedTrigger { time, speed_multiplier, interpolate_to_next_trigger })
}

/// Decodes trigger lines into triggers, stopping at the first line in error.
/// `numbers[i]` holds what was read from the first two fields of `lines[i]`.
pub fn speeds_to_json(lines: &Vec<SpeedLine>, numbers: &Vec<LineNumbers>) -> (r: Result<
    SpeedTriggersData,
    SpeedsError,
>)
    requires
        numbers.len() == lines.len(),
    ensures
        match r {
            Ok(data) => decode_lines(line_views(lines@), numbers@) == Ok::<
                Seq<SpeedTrigger>,
                SpeedsError,
            >(data@),
            Err(e) => decode_lines(line_views(lines@), numbers@) == Err::<
                Seq<SpeedTrigger>,
                SpeedsError,
            >(e),
        },
{
    let ghost all = line_views(lines@);
    let mut triggers: Vec<SpeedTrigger> = Vec::new();
    let mut i: usize = 0;
    assert(all.take(0) =~= Seq::<LineView>::empty());
    while i < lines.len()
        invariant
            i <= lines.len(),
            numbers.len() == lines.len(),
            all == line_views(lines@),
            decode_lines(all.take(i as int), numbers@.take(i as int)) == Ok::<
                Seq<SpeedTrigger>,
                SpeedsError,
            >(triggers@),
        decreases lines.len() - i,
    {
        assert(all.take(i + 1).drop_last() =~= all.take(i as int));
        assert(numbers@.take(i + 1).drop_last() =~= numbers@.take(i as int));
        assert(all.take(i + 1).last() == lines@[i as int]@);
        match read_line(&lines[i], numbers[i]) {
            Ok(t) => {
                triggers.push(t);
            },
            Err(e) => {
                proof {
                    lemma_decode_error_persists(all, numbers@, i + 1, e);
                }
                return Err(e);
            },
        }
        i = i + 1;
    }
    assert(all.take(i as int) =~= all);
    assert(numbers@.take(i as int) =~= numbers@);
    Ok(SpeedTriggersData { triggers })
}

/// The decimal texts of one trigger's time and speed multiplier.
pub struct TriggerNumerals {
    pub time: String,
    pub speed_multiplier: String,
}

impl View for TriggerNumerals {
    type V = (Seq<char>, Seq<char>);

    open spec fn view(&self) -> (Seq<char>, Seq<char>) {
        (self.time@, self.speed_multiplier@)
    }
}

/// The views of a list of numeral pairs.
pub open spec fn numeral_views(v: Seq<TriggerNumerals>) -> Seq<(Seq<char>, Seq<char>)> {
    v.map_values(|n: TriggerNumerals| n@)
}

/// The literal of a boolean.
pub open spec fn bool_text(b: bool) -> Seq<char> {
    if b {
        true_text()
    } else {
        false_text()
    }
}

/// The line of one trigger without its line break: its numbers and flag, one
/// space apart.
pub open spec fn trigger_body(numerals: (Seq<char>, Seq<char>), interpolate: bool) -> Seq<char> {
    numerals.0 + seq![' '] + numerals.1 + seq![' '] + bool_text(interpolate)
}

/// The line of one trigger, line break included.
pub open spec fn trigger_text(numerals: (Seq<char>, Seq<char>), interpolate: bool) -> Seq<char> {
    trigger_body(numerals, interpolate).push('\n')
}

/// The text of a trigger list: one line per trigger, in order, where
/// `numerals[i]` holds the texts of the numbers of `triggers[i]`.
pub open spec fn encoded(triggers: Seq<SpeedTrigger>, numerals: Seq<(Seq<char>, Seq<char>)>) -> Seq<
    char,
>
    decreases triggers.len(),
{
    if triggers.len() == 0 {
        Seq::empty()
    } else {
        encoded(triggers.drop_last(), numerals.drop_last()) + trigger_text(
            numerals.last(),
            triggers.last().interpolate_to_next_trigger,
        )
    }
}

/// Writes a trigger list as text, one line per trigger. `numerals[i]` holds
/// the decimal texts of the numbers of the `i`-th trigger.
pub fn json_to_speeds(speeds: &SpeedTriggersData, numerals: &Vec<TriggerNumerals>) -> (r: String)
    requires
        numerals.len() == speeds.triggers.len(),
    ensures
        r@ == encoded(speeds@, numeral_views(numerals@)),
{
    let ghost ns = numeral_views(numerals@);
    let mut out = String::new();
    let mut i: usize = 0;
    assert(speeds@.take(0) =~= Seq::<SpeedTrigger>::empty());
    while i < speeds.triggers.len()
        invariant
            i <= speeds.triggers.len(),
            numerals.len() == speeds.triggers.len(),
            ns == numeral_views(numerals@),
            out@ == encoded(speeds@.take(i as int), ns.take(i as int)),
        decreases speeds.triggers.len() - i,
    {
        let interpolate = speeds.triggers[i].interpolate_to_next_trigger;
        out.append(numerals[i].time.as_str());
        out.append(" ");
        out.append(numerals[i].speed_multiplier.as_str());
        out.append(" ");
        if interpolate {
            out.append("true");
        } else {
            out.append("false");
        }
        out.append("\n");
        proof {
            reveal_strlit(" ");
            reveal_strlit("true");
            reveal_strlit("false");
            reveal_strlit("\n");
            assert(speeds@.take(i + 1).drop_last() =~= speeds@.take(i as int));
            assert(ns.take(i + 1).drop_last() =~= ns.take(i as int));
            assert(ns.take(i + 1).last() == numerals@[i as int]@);
            assert(out@ =~= encoded(speeds@.take(i + 1), ns.take(i + 1)));
        }
        i = i + 1;
    }
    assert(speeds@.take(i as int) =~= speeds@);
    assert(ns.take(i as int) =~= ns);
    out
}

/// A number's text that the line format carries unchanged: not empty, free
/// of whitespace, and not starting with `#`.
pub open spec fn is_numeral(t: Seq<char>) -> bool {
    t.len() > 0 && t[0] != '#' && forall|k: int| 0 <= k < t.len() ==> !is_space(t[k])
}

/// Whether each pair holds two numerals.
pub open spec fn all_numerals(numerals: Seq<(Seq<char>, Seq<char>)>) -> bool {
    forall|i: int| 0 <= i < numerals.len() ==> is_numeral(numerals[i].0) && is_numeral(numerals[i].1)
}

/// The lines of an encoded trigger list, without their line breaks.
pub open spec fn trigger_bodies(triggers: Seq<SpeedTrigger>, numerals: Seq<(Seq<char>, Seq<char>)>) -> Seq<
    Seq<char>,
> {
    Seq::new(
        triggers.len(),
        |i: int| trigger_body(numerals[i], triggers[i].interpolate_to_next_trigger),
    )
}

/// The trigger lines of an encoded trigger list: one per trigger, numbered
/// from 0, with the two numerals and the flag's literal as words.
pub open spec fn encoded_lines(triggers: Seq<SpeedTrigger>, numerals: Seq<(Seq<char>, Seq<char>)>) -> Seq<
    LineView,
> {
    Seq::new(
        triggers.len(),
        |i: int|
            (
                i,
                seq![numerals[i].0, numerals[i].1, bool_text(triggers[i].interpolate_to_next_trigger)],
            ),
    )
}

/// The literal of a flag is a numeral-like word that reads back as the flag.
proof fn lemma_bool_text(b: bool)
    ensures
        bool_of(bool_text(b)) == Some(b),
        is_numeral(bool_text(b)),
{
    assert(true_text() != false_text()) by {
        assert(true_text().len() != false_text().len());
    }
    assert(is_numeral(true_text()));
    assert(is_numeral(false_text()));
}

/// A trigger's line splits into its two numerals and its flag's literal.
proof fn lemma_body_words(numerals: (Seq<char>, Seq<char>), b: bool)
    requires
        is_numeral(numerals.0),
        is_numeral(numerals.1),
    ensures
        words_of(trigger_body(numerals, b)) == seq![numerals.0, numerals.1, bool_text(b)],
        forall|k: int|
            0 <= k < trigger_body(numerals, b).len() ==> !is_line_break(
                #[trigger] trigger_body(numerals, b)[k],
            ),
{
    let sep = |c: char| is_space(c);
    let a = numerals.0;
    let m = numerals.1;
    let c = bool_text(b);
    lemma_bool_text(b);
    let e = Seq::<char>::empty();
    reveal_with_fuel(pieces, 1);
    lemma_pieces_append(e, a, sep);
    assert(e + a =~= a);
    assert(pieces(a, sep) =~= seq![a]);
    lemma_pieces_step(a, ' ', sep);
    let a1 = a.push(' ');
    assert(pieces(a1, sep) =~= seq![a, e]);
    lemma_pieces_append(a1, m, sep);
    assert(pieces(a1 + m, sep) =~= seq![a, m]);
    lemma_pieces_step(a1 + m, ' ', sep);
    let a2 = (a1 + m).push(' ');
    assert(pieces(a2, sep) =~= seq![a, m, e]);
    lemma_pieces_append(a2, c, sep);
    assert(pieces(a2 + c, sep) =~= seq![a, m, c]);
    let body = trigger_body(numerals, b);
    assert(body =~= a2 + c);
    reveal(Seq::filter);
    assert(nonblank(Seq::<Seq<char>>::empty()) =~= Seq::<Seq<char>>::empty());
    lemma_nonblank_push(Seq::empty(), a);
    assert(seq![a] =~= Seq::<Seq<char>>::empty().push(a));
    lemma_nonblank_push(seq![a], m);
    assert(seq![a, m] =~= seq![a].push(m));
    lemma_nonblank_push(seq![a, m], c);
    assert(seq![a, m, c] =~= seq![a, m].push(c));
    assert forall|k: int| 0 <= k < body.len() implies !is_line_break(#[trigger] body[k]) by {
        if k < a.len() {
            assert(body[k] == a[k]);
        } else if k == a.len() {
            assert(body[k] == ' ');
        } else if k < a.len() + 1 + m.len() {
            assert(body[k] == m[k - a.len() - 1]);
        } else if k == a.len() + 1 + m.len() {
            assert(body[k] == ' ');
        } else {
            assert(body[k] == c[k - a.len() - 2 - m.len()]);
        }
    }
}

/// The lines of an encoded trigger list are the triggers' lines and a final
/// empty line.
proof fn lemma_encoded_line_pieces(
    triggers: Seq<SpeedTrigger>,
    numerals: Seq<(Seq<char>, Seq<char>)>,
)
    requires
        numerals.len() == triggers.len(),
        all_numerals(numerals),
    ensures
        line_pieces(encoded(triggers, numerals)) == trigger_bodies(triggers, numerals).push(
            Seq::empty(),
        ),
    decreases triggers.len(),
{
    let sep = |c: char| is_line_break(c);
    if triggers.len() == 0 {
        reveal_with_fuel(pieces, 1);
        assert(trigger_bodies(triggers, numerals).push(Seq::empty()) =~= seq![Seq::<char>::empty()]);
    } else {
        let t0 = triggers.drop_last();
        let n0 = numerals.drop_last();
        let x = encoded(t0, n0);
        let body = trigger_body(numerals.last(), triggers.last().interpolate_to_next_trigger);
        lemma_encoded_line_pieces(t0, n0);
        lemma_body_words(numerals.last(), triggers.last().interpolate_to_next_trigger);
        lemma_pieces_append(x, body, sep);
        lemma_pieces_step(x + body, '\n', sep);
        assert(encoded(triggers, numerals) =~= (x + body).push('\n'));
        let p = trigger_bodies(t0, n0).push(Seq::empty());
        assert(p.last() + body =~= body);
        assert(trigger_bodies(triggers, numerals) =~= trigger_bodies(t0, n0).push(body));
        assert(line_pieces(encoded(triggers, numerals)) =~= trigger_bodies(triggers, numerals).push(
            Seq::empty(),
        ));
    }
}

/// Numbering one more line adds it, with its index, at the end.
proof fn lemma_numbered_push(lines: Seq<Seq<char>>, l: Seq<char>)
    ensures
        numbered(lines.push(l)) == numbered(lines).push((lines.len() as int, words_of(l))),
{
    assert(numbered(lines.push(l)) =~= numbered(lines).push((lines.len() as int, words_of(l))));
}

/// Every line of an encoded trigger list is a trigger line.
proof fn lemma_bodies_trigger_lines(triggers: Seq<SpeedTrigger>, numerals: Seq<(Seq<char>, Seq<char>)>)
    requires
        numerals.len() == triggers.len(),
        all_numerals(numerals),
    ensures
        trigger_lines(numbered(trigger_bodies(triggers, numerals))) == encoded_lines(
            triggers,
            numerals,
        ),
    decreases triggers.len(),
{
    if triggers.len() == 0 {
        reveal(Seq::filter);
        assert(numbered(trigger_bodies(triggers, numerals)) =~= Seq::<LineView>::empty());
        assert(encoded_lines(triggers, numerals) =~= Seq::<LineView>::empty());
    } else {
        let t0 = triggers.drop_last();
        let n0 = numerals.drop_last();
        let b = triggers.last().interpolate_to_next_trigger;
        let body = trigger_body(numerals.last(), b);
        lemma_bodies_trigger_lines(t0, n0);
        lemma_body_words(numerals.last(), b);
        assert(trigger_bodies(triggers, numerals) =~= trigger_bodies(t0, n0).push(body));
        lemma_numbered_push(trigger_bodies(t0, n0), body);
        let w = seq![numerals.last().0, numerals.last().1, bool_text(b)];
        lemma_trigger_lines_push(numbered(trigger_bodies(t0, n0)), (t0.len() as int, w));
        assert(encoded_lines(triggers, numerals) =~= encoded_lines(t0, n0).push(
            (t0.len() as int, w),
        ));
    }
}

/// The lines of an encoded trigger list decode to that list, when each line's
/// numbers read back as the trigger's numbers.
proof fn lemma_decode_encoded_lines(
    triggers: Seq<SpeedTrigger>,
    numerals: Seq<(Seq<char>, Seq<char>)>,
    numbers: Seq<LineNumbers>,
)
    requires
        numerals.len() == triggers.len(),
        numbers.len() == triggers.len(),
        forall|i: int|
            0 <= i < triggers.len() ==> numbers[i] == (LineNumbers {
                time: Some(triggers[i].time),
                speed_multiplier: Some(triggers[i].speed_multiplier),
            }),
    ensures
        decode_lines(encoded_lines(triggers, numerals), numbers) == Ok::<
            Seq<SpeedTrigger>,
            SpeedsError,
        >(triggers),
    decreases triggers.len(),
{
    let lines = encoded_lines(triggers, numerals);
    if triggers.len() == 0 {
        assert(triggers =~= Seq::<SpeedTrigger>::empty());
    } else {
        let t0 = triggers.drop_last();
        lemma_decode_encoded_lines(t0, numerals.drop_last(), numbers.drop_last());
        assert(lines.drop_last() =~= encoded_lines(t0, numerals.drop_last()));
        lemma_bool_text(triggers.last().interpolate_to_next_trigger);
        assert(t0.push(triggers.last()) =~= triggers);
    }
}

/// Writing a trigger list as text and reading it back gives the same list,
/// when each number's text is a numeral that reads back as that number: the
/// text has one trigger line per trigger, numbered from 0, holding the two
/// numerals and the flag's literal.
pub proof fn lemma_decode_encode(
    triggers: Seq<SpeedTrigger>,
    numerals: Seq<(Seq<char>, Seq<char>)>,
    numbers: Seq<LineNumbers>,
)
    requires
        numerals.len() == triggers.len(),
        numbers.len() == triggers.len(),
        all_numerals(numerals),
        forall|i: int|
            0 <= i < triggers.len() ==> numbers[i] == (LineNumbers {
                time: Some(triggers[i].time),
                speed_multiplier: Some(triggers[i].speed_multiplier),
            }),
    ensures
        speed_lines_of(encoded(triggers, numerals)) == encoded_lines(triggers, numerals),
        decode_lines(speed_lines_of(encoded(triggers, numerals)), numbers) == Ok::<
            Seq<SpeedTrigger>,
            SpeedsError,
        >(triggers),
{
    let bodies = trigger_bodies(triggers, numerals);
    lemma_encoded_line_pieces(triggers, numerals);
    lemma_numbered_push(bodies, Seq::empty());
    reveal_with_fuel(pieces, 1);
    reveal(Seq::filter);
    assert(nonblank(Seq::<Seq<char>>::empty()) =~= Seq::<Seq<char>>::empty());
    lemma_nonblank_push(Seq::empty(), Seq::empty());
    assert(seq![Seq::<char>::empty()] =~= Seq::<Seq<char>>::empty().push(Seq::empty()));
    assert(space_pieces(Seq::empty()) == seq![Seq::<char>::empty()]);
    lemma_trigger_lines_push(numbered(bodies), (bodies.len() as int, words_of(Seq::empty())));
    lemma_bodies_trigger_lines(triggers, numerals);
    lemma_decode_encoded_lines(triggers, numerals, numbers);
}

/// The trigger lines among numbered lines: those whose words make a trigger
/// line, in order, each with its index.
proof fn lemma_trigger_lines_numbered(lines: Seq<Seq<char>>)
    ensures
        ({
            let tl = trigger_lines(numbered(lines));
            &&& forall|k: int|
                0 <= k < tl.len() ==> 0 <= #[trigger] tl[k].0 < lines.len() && tl[k].1 == words_of(
                    lines[tl[k].0],
                ) && is_trigger_line(tl[k].1)
            &&& forall|n: int|
                0 <= n < lines.len() && is_trigger_line(words_of(#[trigger] lines[n])) ==> exists|
                    k: int,
                | 0 <= k < tl.len() && tl[k].0 == n
            &&& forall|k1: int, k2: int| 0 <= k1 < k2 < tl.len() ==> tl[k1].0 < tl[k2].0
        }),
    decreases lines.len(),
{
    if lines.len() == 0 {
        reveal(Seq::filter);
    } else {
        let l0 = lines.drop_last();
        let x = lines.last();
        lemma_trigger_lines_numbered(l0);
        assert(l0.push(x) =~= lines);
        lemma_numbered_push(l0, x);
        lemma_trigger_lines_push(numbered(l0), (l0.len() as int, words_of(x)));
        let tl0 = trigger_lines(numbered(l0));
        let tl = trigger_lines(numbered(lines));
        assert forall|n: int|
            0 <= n < lines.len() && is_trigger_line(words_of(#[trigger] lines[n])) implies exists|
            k: int,
        | 0 <= k < tl.len() && tl[k].0 == n by {
            if n < l0.len() {
                assert(lines[n] == l0[n]);
                let k = choose|k: int| 0 <= k < tl0.len() && tl0[k].0 == n;
                assert(tl[k] == tl0[k]);
            } else {
                assert(tl[tl.len() - 1].0 == n);
            }
        }
        assert forall|k: int| 0 <= k < tl.len() implies 0 <= #[trigger] tl[k].0 < lines.len()
            && tl[k].1 == words_of(lines[tl[k].0]) && is_trigger_line(tl[k].1) by {
            if k < tl0.len() {
                assert(tl[k] == tl0[k]);
                assert(lines[tl0[k].0] == l0[tl0[k].0]);
            }
        }
    }
}

/// A blank line or a line starting with `#` yields no trigger line; every
/// other line yields exactly one, in order, numbered by its index among all
/// lines (from 0, skipped lines included), with its words.
pub proof fn lemma_skipped_lines(s: Seq<char>)
    ensures
        ({
            let lines = line_pieces(s);
            let tl = speed_lines_of(s);
            &&& forall|k: int|
                0 <= k < tl.len() ==> 0 <= #[trigger] tl[k].0 < lines.len() && tl[k].1 == words_of(
                    lines[tl[k].0],
                ) && is_trigger_line(tl[k].1)
            &&& forall|n: int|
                0 <= n < lines.len() ==> (is_trigger_line(words_of(#[trigger] lines[n])) <==> exists|
                    k: int,
                | 0 <= k < tl.len() && tl[k].0 == n)
            &&& forall|k1: int, k2: int| 0 <= k1 < k2 < tl.len() ==> tl[k1].0 < tl[k2].0
        }),
{
    lemma_trigger_lines_numbered(line_pieces(s));
}

/// Decoding yields exactly one trigger per trigger line.
pub proof fn lemma_one_trigger_per_line(lines: Seq<LineView>, numbers: Seq<LineNumbers>)
    requires
        lines.len() == numbers.len(),
    ensures
        decode_lines(lines, numbers) matches Ok(ts) ==> ts.len() == lines.len(),
    decreases lines.len(),
{
    if lines.len() > 0 {
        lemma_one_trigger_per_line(lines.drop_last(), numbers.drop_last());
    }
}

/// A line with fewer than 2 or more than 3 fields ends decoding with a
/// field-count error for that line, whatever the lines after it hold, once
/// the lines before it decode: no trigger list comes out.
pub proof fn lemma_field_count_error(lines: Seq<LineView>, numbers: Seq<LineNumbers>, k: int)
    requires
        lines.len() == numbers.len(),
        0 <= k < lines.len(),
        decode_lines(lines.take(k), numbers.take(k)) is Ok,
        lines[k].1.len() < 2 || lines[k].1.len() > 3,
    ensures
        decode_lines(lines, numbers) == Err::<Seq<SpeedTrigger>, SpeedsError>(
            SpeedsError::FieldCount { line: lines[k].0 as usize, found: lines[k].1.len() as usize },
        ),
{
    assert(lines.take(k + 1).drop_last() =~= lines.take(k));
    assert(numbers.take(k + 1).drop_last() =~= numbers.take(k));
    lemma_decode_error_persists(
        lines,
        numbers,
        k + 1,
        SpeedsError::FieldCount { line: lines[k].0 as usize, found: lines[k].1.len() as usize },
    );
}

} // verus!
