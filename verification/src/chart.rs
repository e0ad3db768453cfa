//! The text of the line charts: the markup escaped into them, the pieces a
//! tick label breaks into, the colour of a series and the rules lighting a
//! series and its legend entry together.

use vstd::prelude::*;
use crate::text::{chars_of, push_char, decimal, decimal_digits, digit_char, views, occurs_at, contains};

verus! {

/// The text standing for `c` in markup.
pub open spec fn escaped_char(c: char) -> Seq<char> {
    if c == '&' {
        seq!['&', 'a', 'm', 'p', ';']
    } else if c == '<' {
        seq!['&', 'l', 't', ';']
    } else if c == '>' {
        seq!['&', 'g', 't', ';']
    } else if c == '"' {
        seq!['&', 'q', 'u', 'o', 't', ';']
    } else {
        seq![c]
    }
}

/// `s` as text in markup: every ampersand, angle bracket and double quote
/// written as its entity.
pub open spec fn escaped(s: Seq<char>) -> Seq<char>
    decreases s.len(),
{
    if s.len() == 0 {
        seq![]
    } else {
        escaped(s.drop_last()) + escaped_char(s.last())
    }
}

/// Appends the entity standing for `c`, or `c` itself.
fn push_escaped(r: &mut String, c: char)
    ensures
        final(r)@ == old(r)@ + escaped_char(c),
{
    if c == '&' {
        push_char(r, '&');
        push_char(r, 'a');
        push_char(r, 'm');
        push_char(r, 'p');
        push_char(r, ';');
    } else if c == '<' {
        push_char(r, '&');
        push_char(r, 'l');
        push_char(r, 't');
        push_char(r, ';');
    } else if c == '>' {
        push_char(r, '&');
        push_char(r, 'g');
        push_char(r, 't');
        push_char(r, ';');
    } else if c == '"' {
        push_char(r, '&');
        push_char(r, 'q');
        push_char(r, 'u');
        push_char(r, 'o');
        push_char(r, 't');
        push_char(r, ';');
    } else {
        push_char(r, c);
    }
    assert(final(r)@ =~= old(r)@ + escaped_char(c));
}

/// `text` escaped for markup.
pub fn escape(text: &str) -> (r: String)
    ensures
        r@ == escaped(text@),
{
    let characters = chars_of(text);
    let mut r = String::new();
    let mut i: usize = 0;
    assert(characters@.take(0) =~= seq![]);
    while i < characters.len()
        invariant
            i <= characters@.len(),
            characters@ == text@,
            r@ == escaped(characters@.take(i as int)),
        decreases characters@.len() - i,
    {
        push_escaped(&mut r, characters[i]);
        assert(characters@.take(i + 1).drop_last() =~= characters@.take(i as int));
        i = i + 1;
    }
    assert(characters@.take(i as int) =~= characters@);
    r
}

/// Escaped text holds no angle bracket and no double quote, so it can stand
/// in an element or an attribute without ending it.
pub proof fn law_escaped_text_holds_no_markup(s: Seq<char>)
    ensures
        forall|i: int|
            0 <= i < escaped(s).len() ==> {
                let c = #[trigger] escaped(s)[i];
                c != '<' && c != '>' && c != '"'
            },
    decreases s.len(),
{
    if s.len() > 0 {
        law_escaped_text_holds_no_markup(s.drop_last());
        let head = escaped(s.drop_last());
        let tail = escaped_char(s.last());
        assert forall|i: int| 0 <= i < escaped(s).len() implies {
            let c = #[trigger] escaped(s)[i];
            c != '<' && c != '>' && c != '"'
        } by {
            if i < head.len() {
                assert(escaped(s)[i] == head[i]);
            } else {
                assert(escaped(s)[i] == tail[i - head.len()]);
            }
        }
    }
}

/// A tick label too wide for its slot breaks after these.
pub open spec fn is_break(c: char) -> bool {
    c == '-' || c == ' '
}

/// The pieces of `rest` after the piece `piece` begun before it: cut after
/// every break character, each piece keeping its break.
pub open spec fn pieces_from(piece: Seq<char>, rest: Seq<char>) -> Seq<Seq<char>>
    decreases rest.len(),
{
    if rest.len() == 0 {
        if piece.len() == 0 {
            seq![]
        } else {
            seq![piece]
        }
    } else if is_break(rest[0]) {
        seq![piece.push(rest[0])] + pieces_from(seq![], rest.drop_first())
    } else {
        pieces_from(piece.push(rest[0]), rest.drop_first())
    }
}

/// The pieces of `label`.
pub open spec fn label_pieces(label: Seq<char>) -> Seq<Seq<char>> {
    pieces_from(seq![], label)
}

/// `parts` one after the other.
pub open spec fn joined(parts: Seq<Seq<char>>) -> Seq<char>
    decreases parts.len(),
{
    if parts.len() == 0 {
        seq![]
    } else {
        parts[0] + joined(parts.drop_first())
    }
}

/// `label` cut after every break character, each piece keeping its break.
pub fn pieces(label: &str) -> (pieces: Vec<String>)
    ensures
        views(pieces@) == label_pieces(label@),
{
    let characters = chars_of(label);
    let mut pieces: Vec<String> = Vec::new();
    let mut piece = String::new();
    let mut i: usize = 0;
    assert(characters@.skip(0) =~= characters@);
    assert(views(pieces@) =~= seq![]);
    while i < characters.len()
        invariant
            i <= characters@.len(),
            characters@ == label@,
            label_pieces(label@) == views(pieces@) + pieces_from(piece@, characters@.skip(i as int)),
        decreases characters@.len() - i,
    {
        let character = characters[i];
        assert(characters@.skip(i as int).drop_first() =~= characters@.skip(i + 1));
        push_char(&mut piece, character);
        if character == '-' || character == ' ' {
            let ghost before = views(pieces@);
            let mut done = String::new();
            std::mem::swap(&mut done, &mut piece);
            let ghost finished = done@;
            pieces.push(done);
            assert(views(pieces@) =~= before + seq![finished]);
            assert(piece@ =~= seq![]);
        }
        i = i + 1;
    }
    if !piece.as_str().is_empty() {
        let ghost before = views(pieces@);
        let ghost finished = piece@;
        pieces.push(piece);
        assert(views(pieces@) =~= before + seq![finished]);
    } else {
        assert(views(pieces@) + Seq::<Seq<char>>::empty() =~= views(pieces@));
    }
    pieces
}

/// The pieces of a label, one after the other, are the label again, and no
/// piece is empty.
pub proof fn law_pieces_join_to_the_label(label: Seq<char>)
    ensures
        joined(label_pieces(label)) == label,
        forall|i: int| 0 <= i < label_pieces(label).len() ==> #[trigger] label_pieces(label)[i].len() > 0,
{
    lemma_pieces_from(seq![], label);
    assert(Seq::<char>::empty() + label =~= label);
}

proof fn lemma_pieces_from(piece: Seq<char>, rest: Seq<char>)
    ensures
        joined(pieces_from(piece, rest)) == piece + rest,
        forall|i: int| 0 <= i < pieces_from(piece, rest).len() ==> #[trigger] pieces_from(piece, rest)[i].len() > 0,
    decreases rest.len(),
{
    if rest.len() == 0 {
        if piece.len() > 0 {
            assert(joined(seq![piece]) == piece + joined(seq![piece].drop_first()));
            assert(seq![piece].drop_first() =~= Seq::<Seq<char>>::empty());
        }
        assert(piece + rest =~= piece);
    } else if is_break(rest[0]) {
        lemma_pieces_from(seq![], rest.drop_first());
        let all = seq![piece.push(rest[0])] + pieces_from(seq![], rest.drop_first());
        assert(all.drop_first() =~= pieces_from(seq![], rest.drop_first()));
        assert(piece.push(rest[0]) + (Seq::<char>::empty() + rest.drop_first()) =~= piece + rest);
        assert forall|i: int| 0 <= i < all.len() implies #[trigger] all[i].len() > 0 by {
            if i > 0 {
                assert(all[i] == pieces_from(seq![], rest.drop_first())[i - 1]);
            }
        }
    } else {
        lemma_pieces_from(piece.push(rest[0]), rest.drop_first());
        assert(piece.push(rest[0]) + rest.drop_first() =~= piece + rest);
    }
}

/// The colour of a series of `hue`, at the saturation and lightness of an avatar.
pub open spec fn color_text(hue: u64) -> Seq<char> {
    "hsl("@ + decimal_digits(hue as nat) + " 60% 55%)"@
}

/// The colour of a series of `hue`.
pub fn color(hue: u64) -> (color: String)
    ensures
        color@ == color_text(hue),
{
    let mut color = "hsl(".to_owned();
    let digits = decimal(hue);
    color.append(digits.as_str());
    color.append(" 60% 55%)");
    color
}

/// The rules every chart carries: the fades and the thickening line.
pub open spec fn base_rules() -> Seq<char> {
    ".line-chart .series,.line-chart .legend{transition:opacity 0.12s,background-color 0.12s,color 0.12s}"@
        + ".line-chart:has(.series:hover) .series:not(:hover),"@
        + ".line-chart:has(.legend:hover) .series{opacity:0.3}"@
        + ".line-chart .series:hover .line{stroke-width:2.5}"@
}

/// The rules of the series at `index` of `hue`: its legend entry lit while
/// it or the entry is under the cursor, the series lit by its entry.
pub open spec fn series_rules(index: nat, hue: u64) -> Seq<char> {
    let i = decimal_digits(index);
    ".line-chart:has(.series-"@ + i + ":hover) .legend-"@ + i + ",.line-chart:has(.legend-"@ + i
        + ":hover) .legend-"@ + i + "{background-color:#262626;color:"@ + color_text(hue) + "}"@
        + ".line-chart:has(.legend-"@ + i + ":hover) .series-"@ + i + "{opacity:1}"@
        + ".line-chart:has(.legend-"@ + i + ":hover) .series-"@ + i + " .line{stroke-width:2.5}"@
}

/// The rules of the series of `hues`, the first of them at `index`.
pub open spec fn all_series_rules(hues: Seq<u64>, index: nat) -> Seq<char>
    decreases hues.len(),
{
    if hues.len() == 0 {
        seq![]
    } else {
        series_rules(index, hues[0]) + all_series_rules(hues.drop_first(), index + 1)
    }
}

/// The hover rules of a chart whose series have `hues`, in their order.
pub open spec fn hover_rules_text(hues: Seq<u64>) -> Seq<char> {
    base_rules() + all_series_rules(hues, 0)
}

/// Appends the rules of the series at `index` of `hue`.
fn push_series_rules(rules: &mut String, index: u64, hue: u64)
    ensures
        final(rules)@ == old(rules)@ + series_rules(index as nat, hue),
{
    let i = decimal(index);
    let i = i.as_str();
    let color = color(hue);
    rules.append(".line-chart:has(.series-");
    rules.append(i);
    rules.append(":hover) .legend-");
    rules.append(i);
    rules.append(",.line-chart:has(.legend-");
    rules.append(i);
    rules.append(":hover) .legend-");
    rules.append(i);
    rules.append("{background-color:#262626;color:");
    rules.append(color.as_str());
    rules.append("}");
    rules.append(".line-chart:has(.legend-");
    rules.append(i);
    rules.append(":hover) .series-");
    rules.append(i);
    rules.append("{opacity:1}");
    rules.append(".line-chart:has(.legend-");
    rules.append(i);
    rules.append(":hover) .series-");
    rules.append(i);
    rules.append(" .line{stroke-width:2.5}");
    assert(final(rules)@ =~= old(rules)@ + series_rules(index as nat, hue));
}

/// The rules lighting a line and its legend entry together: while either is
/// under the cursor the line thickens, the other lines fade and the entry
/// takes a ground and the colour of the line. They are scoped to the chart
/// through `:has`, so several charts on a page leave each other alone. The
/// series are given by their hues, in their order.
pub fn hover_rules(hues: &[u64]) -> (rules: String)
    ensures
        rules@ == hover_rules_text(hues@),
{
    let mut rules = String::new();
    rules.append(".line-chart .series,.line-chart .legend{transition:opacity 0.12s,background-color 0.12s,color 0.12s}");
    rules.append(".line-chart:has(.series:hover) .series:not(:hover),");
    rules.append(".line-chart:has(.legend:hover) .series{opacity:0.3}");
    rules.append(".line-chart .series:hover .line{stroke-width:2.5}");
    assert(rules@ =~= base_rules());
    let mut index: usize = 0;
    assert(hues@.skip(0) =~= hues@);
    while index < hues.len()
        invariant
            index <= hues@.len(),
            hover_rules_text(hues@) == rules@ + all_series_rules(hues@.skip(index as int), index as nat),
        decreases hues@.len() - index,
    {
        let ghost before = rules@;
        push_series_rules(&mut rules, index as u64, hues[index]);
        assert(hues@.skip(index as int).drop_first() =~= hues@.skip(index + 1));
        assert(before + (series_rules(index as nat, hues@[index as int]) + all_series_rules(
            hues@.skip(index + 1),
            (index + 1) as nat,
        )) =~= rules@ + all_series_rules(hues@.skip(index + 1), (index + 1) as nat));
        index = index + 1;
    }
    assert(hues@.skip(index as int) =~= Seq::<u64>::empty());
    assert(rules@ + Seq::<char>::empty() =~= rules@);
    rules
}

/// The most labels a horizontal axis carries before they are thinned.
pub const HORIZONTAL_LABELS: u64 = 12;

/// Every how many ticks of `count` one is labelled, so no more than
/// `HORIZONTAL_LABELS` are.
pub open spec fn label_every(count: nat) -> nat {
    let every = count / (HORIZONTAL_LABELS as nat) + if count % (HORIZONTAL_LABELS as nat) == 0 {
        0nat
    } else {
        1nat
    };
    if every == 0 {
        1
    } else {
        every as nat
    }
}

/// The tick at `index` of an axis over the whole numbers from `first`, with
/// `count` of them: its value, and the value written out where it is labelled.
pub open spec fn counted_tick(first: u64, count: nat, index: nat) -> (u64, Seq<char>) {
    let value = (first + index) as u64;
    (value, if index % label_every(count) == 0 {
        decimal_digits(value as nat)
    } else {
        seq![]
    })
}

/// The ticks of an axis over the whole numbers `first` to `last`, every one
/// a tick and every so many labelled, so a long axis keeps its labels apart;
/// a `last` before `first` counts as `first`.
pub fn counted_ticks(first: u64, last: u64) -> (ticks: Vec<(u64, String)>)
    requires
        (if last > first { last - first } else { 0 }) < usize::MAX,
    ensures
        ticks@.len() == (if last > first { last - first } else { 0 }) + 1,
        forall|i: int|
            0 <= i < ticks@.len() ==> {
                let tick = counted_tick(first, ticks@.len(), i as nat);
                &&& (#[trigger] ticks@[i]).0 == tick.0
                &&& ticks@[i].1@ == tick.1
            },
{
    let last = if last > first {
        last
    } else {
        first
    };
    let count: u64 = last - first + 1;
    let rounded_up: u64 = count / HORIZONTAL_LABELS + if count % HORIZONTAL_LABELS == 0 {
        0
    } else {
        1
    };
    let every: u64 = if rounded_up == 0 {
        1
    } else {
        rounded_up
    };
    assert(every == label_every(count as nat));
    let mut ticks: Vec<(u64, String)> = Vec::new();
    let mut index: u64 = 0;
    while index < count
        invariant
            count == last - first + 1,
            last >= first,
            every == label_every(count as nat),
            every > 0,
            index <= count,
            ticks@.len() == index,
            forall|i: int|
                0 <= i < index ==> {
                    let tick = counted_tick(first, count as nat, i as nat);
                    &&& (#[trigger] ticks@[i]).0 == tick.0
                    &&& ticks@[i].1@ == tick.1
                },
        decreases count - index,
    {
        let value = first + index;
        let label = if index % every == 0 {
            decimal(value)
        } else {
            String::new()
        };
        ticks.push((value, label));
        index = index + 1;
    }
    ticks
}

/// The ticks of a percent axis: every quarter from nothing to the whole,
/// labelled in percent.
pub open spec fn percent_tick(index: nat) -> (u64, Seq<char>) {
    ((25 * index) as u64, decimal_digits(25 * index) + seq!['%'])
}

/// The ticks of an axis from nothing to the whole, a tick every quarter,
/// labelled in percent.
pub fn percent_ticks() -> (ticks: Vec<(u64, String)>)
    ensures
        ticks@.len() == 5,
        forall|i: int|
            0 <= i < 5 ==> {
                let tick = percent_tick(i as nat);
                &&& (#[trigger] ticks@[i]).0 == tick.0
                &&& ticks@[i].1@ == tick.1
            },
{
    let mut ticks: Vec<(u64, String)> = Vec::new();
    let mut index: u64 = 0;
    while index <= 4
        invariant
            index <= 5,
            ticks@.len() == index,
            forall|i: int|
                0 <= i < index ==> {
                    let tick = percent_tick(i as nat);
                    &&& (#[trigger] ticks@[i]).0 == tick.0
                    &&& ticks@[i].1@ == tick.1
                },
        decreases 5 - index,
    {
        let value = 25 * index;
        let mut label = decimal(value);
        push_char(&mut label, '%');
        ticks.push((value, label));
        index = index + 1;
    }
    ticks
}

/// The round spans of minutes or hours a seconds axis ticks at.
pub const SECONDS_SPANS: [u64; 12] = [10, 30, 60, 120, 300, 600, 900, 1200, 1800, 3600, 7200, 14400];

/// The seconds in an hour.
pub const HOUR: u64 = 3600;

/// `a` over `b`, rounded up.
pub open spec fn ceil_div(a: nat, b: nat) -> nat {
    a / b + if a % b == 0 {
        0nat
    } else {
        1nat
    }
}

/// The first of `spans` at which `max` takes no more ticks than an axis
/// labels.
pub open spec fn first_fitting(max: nat, spans: Seq<u64>) -> Option<u64>
    decreases spans.len(),
{
    if spans.len() == 0 {
        None
    } else if spans[0] > 0 && ceil_div(max, spans[0] as nat) <= HORIZONTAL_LABELS {
        Some(spans[0])
    } else {
        first_fitting(max, spans.drop_first())
    }
}

/// The step of a seconds axis up to `max`: the first round span fitting,
/// else whole hours.
pub open spec fn seconds_step(max: nat) -> nat {
    match first_fitting(max, SECONDS_SPANS@) {
        Some(span) => span as nat,
        None => (max / (HORIZONTAL_LABELS * HOUR) as nat + 1) * HOUR as nat,
    }
}

/// The end of a seconds axis up to `max`: the step at or above it, one step
/// at least.
pub open spec fn seconds_top(max: nat) -> nat {
    let steps = ceil_div(max, seconds_step(max));
    (if steps == 0 {
        1
    } else {
        steps
    }) * seconds_step(max)
}

/// The first round span at which `max` takes no more ticks than an axis labels.
fn first_fitting_span(max: u64) -> (span: Option<u64>)
    ensures
        span == first_fitting(max as nat, SECONDS_SPANS@),
        span matches Some(s) ==> s >= 10,
{
    let mut i: usize = 0;
    assert(SECONDS_SPANS@.skip(0) =~= SECONDS_SPANS@);
    while i < 12
        invariant
            i <= 12,
            SECONDS_SPANS@ == seq![10u64, 30, 60, 120, 300, 600, 900, 1200, 1800, 3600, 7200, 14400],
            first_fitting(max as nat, SECONDS_SPANS@) == first_fitting(
                max as nat,
                SECONDS_SPANS@.skip(i as int),
            ),
        decreases 12 - i,
    {
        let span = SECONDS_SPANS[i];
        assert(span >= 10);
        assert(max / span <= u64::MAX / 10) by (nonlinear_arith)
            requires
                span >= 10,
        ;
        assert(SECONDS_SPANS@.skip(i as int)[0] == span);
        assert(SECONDS_SPANS@.skip(i as int).drop_first() =~= SECONDS_SPANS@.skip(i + 1));
        let steps = max / span + if max % span == 0 {
            0
        } else {
            1
        };
        if steps <= HORIZONTAL_LABELS {
            return Some(span);
        }
        i = i + 1;
    }
    assert(SECONDS_SPANS@.skip(12) =~= Seq::<u64>::empty());
    None
}

/// The ticks of an axis of seconds from zero to `max`, at a round span of
/// minutes or hours: every step from zero to the step at or above `max`.
pub fn seconds_ticks(max: u64) -> (ticks: Vec<u64>)
    requires
        seconds_top(max as nat) <= u64::MAX,
    ensures
        ticks@.len() == seconds_top(max as nat) / seconds_step(max as nat) + 1,
        forall|i: int| 0 <= i < ticks@.len() ==> #[trigger] ticks@[i] == i * seconds_step(max as nat),
{
    let step = match first_fitting_span(max) {
        Some(span) => span,
        None => {
            assert((max / 43200u64 + 1) * 3600 <= u64::MAX) by (nonlinear_arith)
                requires
                    max <= u64::MAX,
            ;
            (max / (HORIZONTAL_LABELS * HOUR) + 1) * HOUR
        },
    };
    assert(step as nat == seconds_step(max as nat));
    assert(step >= 10);
    assert(max / step <= u64::MAX / 10) by (nonlinear_arith)
        requires
            step >= 10,
    ;
    let count = max / step + if max % step == 0 {
        0
    } else {
        1
    };
    let count = if count == 0 {
        1
    } else {
        count
    };
    let top = count * step;
    let mut ticks: Vec<u64> = Vec::new();
    let mut tick: u64 = 0;
    while tick <= count
        invariant
            tick <= count + 1,
            count <= u64::MAX / 10 + 1,
            count * step == top,
            top == seconds_top(max as nat),
            step == seconds_step(max as nat),
            step > 0,
            ticks@.len() == tick,
            forall|j: int| 0 <= j < tick ==> #[trigger] ticks@[j] == j * step,
        decreases count + 1 - tick,
    {
        assert(tick * step <= count * step) by (nonlinear_arith)
            requires
                tick <= count,
        ;
        ticks.push(tick * step);
        tick = tick + 1;
    }
    assert(top / step == count) by (nonlinear_arith)
        requires
            top == count * step,
            step > 0,
    ;
    ticks
}

/// No `s` in `t` stands right before a colon, and `t` does not end in `s`.
pub open spec fn colon_safe(t: Seq<char>) -> bool {
    &&& forall|j: int| 0 <= j && j + 1 < t.len() ==> !(#[trigger] t[j] == 's' && t[j + 1] == ':')
    &&& t.len() > 0 ==> t.last() != 's'
}

/// Joining texts without an `s` before a colon makes none.
proof fn lemma_colon_safe_join(a: Seq<char>, b: Seq<char>)
    requires
        colon_safe(a),
        colon_safe(b),
    ensures
        colon_safe(a + b),
{
    let t = a + b;
    assert forall|j: int| 0 <= j && j + 1 < t.len() implies !(#[trigger] t[j] == 's' && t[j + 1]
        == ':') by {
        if j + 1 < a.len() {
            assert(t[j] == a[j] && t[j + 1] == a[j + 1]);
        } else if j >= a.len() {
            assert(t[j] == b[j - a.len()] && t[j + 1] == b[j + 1 - a.len()]);
        } else {
            assert(t[j] == a.last());
        }
    }
}

/// A decimal number is digits alone.
proof fn lemma_digits_colon_safe(n: nat)
    ensures
        colon_safe(decimal_digits(n)),
        forall|j: int|
            0 <= j < decimal_digits(n).len() ==> '0' <= #[trigger] decimal_digits(n)[j] <= '9',
    decreases n,
{
    if n >= 10 {
        lemma_digits_colon_safe(n / 10);
    }
    let d = digit_char(n % 10);
    assert('0' <= d <= '9');
}

/// The rules of one series hold no `s` before a colon.
#[verifier::spinoff_prover]
proof fn lemma_series_rules_colon_safe(index: nat, hue: u64)
    ensures
        colon_safe(series_rules(index, hue)),
{
    let i = decimal_digits(index);
    lemma_digits_colon_safe(index);
    lemma_digits_colon_safe(hue as nat);
    reveal_strlit(".line-chart:has(.series-");
    reveal_strlit(":hover) .legend-");
    reveal_strlit(",.line-chart:has(.legend-");
    reveal_strlit("{background-color:#262626;color:");
    reveal_strlit("}");
    reveal_strlit(".line-chart:has(.legend-");
    reveal_strlit(":hover) .series-");
    reveal_strlit("{opacity:1}");
    reveal_strlit(" .line{stroke-width:2.5}");
    reveal_strlit("hsl(");
    reveal_strlit(" 60% 55%)");
    assert(colon_safe(".line-chart:has(.series-"@));
    assert(colon_safe(":hover) .legend-"@));
    assert(colon_safe(",.line-chart:has(.legend-"@));
    assert(colon_safe("{background-color:#262626;color:"@));
    assert(colon_safe("}"@));
    assert(colon_safe(".line-chart:has(.legend-"@));
    assert(colon_safe(":hover) .series-"@));
    assert(colon_safe("{opacity:1}"@));
    assert(colon_safe(" .line{stroke-width:2.5}"@));
    assert(colon_safe("hsl("@));
    assert(colon_safe(" 60% 55%)"@));
    lemma_colon_safe_join("hsl("@, decimal_digits(hue as nat));
    lemma_colon_safe_join("hsl("@ + decimal_digits(hue as nat), " 60% 55%)"@);
    let c = color_text(hue);
    let t1 = ".line-chart:has(.series-"@ + i;
    lemma_colon_safe_join(".line-chart:has(.series-"@, i);
    let t2 = t1 + ":hover) .legend-"@;
    lemma_colon_safe_join(t1, ":hover) .legend-"@);
    let t3 = t2 + i;
    lemma_colon_safe_join(t2, i);
    let t4 = t3 + ",.line-chart:has(.legend-"@;
    lemma_colon_safe_join(t3, ",.line-chart:has(.legend-"@);
    let t5 = t4 + i;
    lemma_colon_safe_join(t4, i);
    let t6 = t5 + ":hover) .legend-"@;
    lemma_colon_safe_join(t5, ":hover) .legend-"@);
    let t7 = t6 + i;
    lemma_colon_safe_join(t6, i);
    let t8 = t7 + "{background-color:#262626;color:"@;
    lemma_colon_safe_join(t7, "{background-color:#262626;color:"@);
    let t9 = t8 + c;
    lemma_colon_safe_join(t8, c);
    let t10 = t9 + "}"@;
    lemma_colon_safe_join(t9, "}"@);
    let t11 = t10 + ".line-chart:has(.legend-"@;
    lemma_colon_safe_join(t10, ".line-chart:has(.legend-"@);
    let t12 = t11 + i;
    lemma_colon_safe_join(t11, i);
    let t13 = t12 + ":hover) .series-"@;
    lemma_colon_safe_join(t12, ":hover) .series-"@);
    let t14 = t13 + i;
    lemma_colon_safe_join(t13, i);
    let t15 = t14 + "{opacity:1}"@;
    lemma_colon_safe_join(t14, "{opacity:1}"@);
    let t16 = t15 + ".line-chart:has(.legend-"@;
    lemma_colon_safe_join(t15, ".line-chart:has(.legend-"@);
    let t17 = t16 + i;
    lemma_colon_safe_join(t16, i);
    let t18 = t17 + ":hover) .series-"@;
    lemma_colon_safe_join(t17, ":hover) .series-"@);
    let t19 = t18 + i;
    lemma_colon_safe_join(t18, i);
    lemma_colon_safe_join(t19, " .line{stroke-width:2.5}"@);
    assert(series_rules(index, hue) == t19 + " .line{stroke-width:2.5}"@);
}

/// The rules of any series hold no `s` before a colon.
proof fn lemma_all_series_rules_colon_safe(hues: Seq<u64>, index: nat)
    ensures
        colon_safe(all_series_rules(hues, index)),
    decreases hues.len(),
{
    if hues.len() > 0 {
        lemma_series_rules_colon_safe(index, hues[0]);
        lemma_all_series_rules_colon_safe(hues.drop_first(), index + 1);
        lemma_colon_safe_join(
            series_rules(index, hues[0]),
            all_series_rules(hues.drop_first(), index + 1),
        );
    }
}

/// The line under the cursor never fades: every selector that dims the lines
/// while one of them is hovered leaves the hovered one out, and there is such
/// a fade, whatever the series.
#[verifier::spinoff_prover]
pub proof fn law_a_hovered_line_never_fades(hues: Seq<u64>)
    ensures
        forall|p: int|
            occurs_at(hover_rules_text(hues), ".line-chart:has(.series:hover) .series"@, p)
                ==> occurs_at(
                hover_rules_text(hues),
                ".line-chart:has(.series:hover) .series:not(:hover)"@,
                p,
            ),
        contains(hover_rules_text(hues), ".line-chart:has(.series:hover) .series:not(:hover)"@),
{
    let base = base_rules();
    let rest = all_series_rules(hues, 0);
    let text = hover_rules_text(hues);
    let x = ".line-chart:has(.series:hover) .series"@;
    let fade = ".line-chart:has(.series:hover) .series:not(:hover)"@;
    reveal_strlit(".line-chart .series,.line-chart .legend{transition:opacity 0.12s,background-color 0.12s,color 0.12s}");
    reveal_strlit(".line-chart:has(.series:hover) .series:not(:hover),");
    reveal_strlit(".line-chart:has(.legend:hover) .series{opacity:0.3}");
    reveal_strlit(".line-chart .series:hover .line{stroke-width:2.5}");
    reveal_strlit(".line-chart:has(.series:hover) .series");
    reveal_strlit(".line-chart:has(.series:hover) .series:not(:hover)");
    lemma_all_series_rules_colon_safe(hues, 0);
    assert(base.len() == 251);
    assert(x.len() == 38);
    assert(fade.len() == 50);
    assert(base[250] == '}');
    assert forall|q: int| 0 <= q < 250 && #[trigger] base[q] == 's' && base[q + 1] == ':' implies q
        == 122 || q == 137 || q == 220 by {}
    assert(text.subrange(100, 150) =~= fade);
    assert(occurs_at(text, fade, 100));
    assert forall|p: int| occurs_at(text, x, p) implies occurs_at(text, fade, p) by {
        let q = p + 22;
        assert(text.subrange(p, p + 38)[22] == x[22]);
        assert(text.subrange(p, p + 38)[23] == x[23]);
        assert(text[q] == 's' && text[q + 1] == ':');
        if q >= 251 {
            assert(text[q] == rest[q - 251] && text[q + 1] == rest[q + 1 - 251]);
        } else if q == 250 {
            assert(text[q] == base[250]);
        } else {
            assert(text[q] == base[q] && text[q + 1] == base[q + 1]);
            assert(q == 122 || q == 137 || q == 220);
            assert(text.subrange(p, p + 38)[0] == text[p]);
            assert(text[p] == base[p]);
            if q == 137 {
                assert(base[115] == '(');
            } else if q == 220 {
                assert(base[198] == '0');
            }
        }
    }
}

} // verus!
