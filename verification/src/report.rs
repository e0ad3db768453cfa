//! The text of the report over chosen tournaments: the name of its file, the
//! tabs switching between its panes, the labels of its columns, and the
//! document standing on its own, the fonts, the styles and the images inside
//! it, so it reads the same saved as served.

use vstd::prelude::*;
use crate::text::{push_char, decimal, decimal_digits, digit_char, replace, replaced, chars_of,
    contains, matches_at, occurs_at, same_text};
use crate::chart::{escape, escaped};

verus! {

/// The directory the reports are written into unless another is named.
pub const DEFAULT_DIRECTORY: &'static str = "reports";

/// The title of the report.
pub const TITLE: &'static str = "Agent vs Agent";

/// A part of a report: tournaments under a label of their own, the file
/// switching between its parts. A report in one piece is one part without a
/// label.
#[derive(Clone, Debug, Default)]
pub struct Part {
    pub label: String,
    pub names: Vec<String>,
}

/// The report command: the report over tournaments as a file.
pub struct Report {
    /// The parts of the report, one piece over every tournament on disk when empty.
    pub parts: Vec<Part>,
    /// The directory the file is written into.
    pub directory: String,
}

impl Default for Report {
    fn default() -> (report: Self)
        ensures
            report.parts@.len() == 0,
            report.directory@ == DEFAULT_DIRECTORY@,
    {
        Report { parts: Vec::new(), directory: DEFAULT_DIRECTORY.to_owned() }
    }
}

/// The names `names`, each after a dash.
pub open spec fn dashed(names: Seq<String>) -> Seq<char>
    decreases names.len(),
{
    if names.len() == 0 {
        seq![]
    } else {
        dashed(names.drop_last()) + "-"@ + names.last()@
    }
}

/// What `part` adds to the name of the file: its label, or the tournaments
/// of a part without one.
pub open spec fn part_name(part: Part) -> Seq<char> {
    if part.label@.len() == 0 {
        dashed(part.names@)
    } else {
        "-"@ + part.label@
    }
}

/// What `parts` add to the name of the file, in their order.
pub open spec fn parts_name(parts: Seq<Part>) -> Seq<char>
    decreases parts.len(),
{
    if parts.len() == 0 {
        seq![]
    } else {
        parts_name(parts.drop_last()) + part_name(parts.last())
    }
}

/// The name of the report over `parts` as a file.
pub open spec fn file_name_text(parts: Seq<Part>) -> Seq<char> {
    "report"@ + parts_name(parts) + ".html"@
}

/// The name of the report over `parts` as a file: after the labels of the
/// parts, after the tournaments of a part without one.
pub fn file_name(parts: &[Part]) -> (name: String)
    ensures
        name@ == file_name_text(parts@),
{
    let mut name = "report".to_owned();
    let mut i: usize = 0;
    assert(parts@.take(0) =~= Seq::<Part>::empty());
    while i < parts.len()
        invariant
            i <= parts@.len(),
            name@ == "report"@ + parts_name(parts@.take(i as int)),
        decreases parts@.len() - i,
    {
        let part = &parts[i];
        let ghost before = name@;
        if part.label.as_str().is_empty() {
            let mut j: usize = 0;
            assert(part.names@.take(0) =~= Seq::<String>::empty());
            assert(name@ =~= before + dashed(part.names@.take(0)));
            while j < part.names.len()
                invariant
                    j <= part.names@.len(),
                    name@ == before + dashed(part.names@.take(j as int)),
                decreases part.names@.len() - j,
            {
                name.append("-");
                name.append(part.names[j].as_str());
                assert(part.names@.take(j + 1).drop_last() =~= part.names@.take(j as int));
                j = j + 1;
            }
            assert(part.names@.take(j as int) =~= part.names@);
        } else {
            name.append("-");
            name.append(part.label.as_str());
        }
        assert(parts@.take(i + 1).drop_last() =~= parts@.take(i as int));
        i = i + 1;
    }
    assert(parts@.take(i as int) =~= parts@);
    name.append(".html");
    name
}

/// `body` with every link to `address` pointing at the page `id` inside the file.
pub open spec fn pointed_inside_text(body: Seq<char>, address: Seq<char>, id: Seq<char>) -> Seq<
    char,
> {
    replaced(body, "href=\""@ + address + "\""@, "href=\"#"@ + id + "\""@)
}

/// `body` with every link to `address` pointing at the page `id` inside the file.
pub fn pointed_inside(body: &str, address: &str, id: &str) -> (r: String)
    ensures
        r@ == pointed_inside_text(body@, address@, id@),
{
    let mut from = "href=\"".to_owned();
    from.append(address);
    from.append("\"");
    let mut to = "href=\"#".to_owned();
    to.append(id);
    to.append("\"");
    replace(body, from.as_str(), to.as_str())
}

/// The rules showing the page the address targets in place of the report.
pub fn page_rules() -> (rules: String)
    ensures
        rules@ == ".report-page{display:none}.report-page:target{display:block}"@
            + ".report-pages:has(.report-page:target)>.report-front{display:none}"@,
{
    let mut rules = ".report-page{display:none}.report-page:target{display:block}".to_owned();
    rules.append(".report-pages:has(.report-page:target)>.report-front{display:none}");
    rules
}

/// The front of the file, its title.
pub fn masthead() -> (heading: String)
    ensures
        heading@ == "<h1 class=\"text-4xl font-semibold tracking-tight text-neutral-100\">"@
            + TITLE@ + "</h1>"@,
{
    let mut heading = "<h1 class=\"text-4xl font-semibold tracking-tight text-neutral-100\">".to_owned();
    heading.append(TITLE);
    heading.append("</h1>");
    heading
}

/// `label` with `title` behind its hover.
pub open spec fn titled_text(label: Seq<char>, title: Seq<char>) -> Seq<char> {
    "<span title=\""@ + escaped(title) + "\">"@ + label + "</span>"@
}

/// `label` with `title` behind its hover.
pub fn titled(label: &str, title: &str) -> (r: String)
    ensures
        r@ == titled_text(label@, title@),
{
    let mut r = "<span title=\"".to_owned();
    let escaped_title = escape(title);
    r.append(escaped_title.as_str());
    r.append("\">");
    r.append(label);
    r.append("</span>");
    r
}

/// `n` over `d`, rounded to the nearest whole number, a half to the even one.
pub open spec fn rounded(n: nat, d: nat) -> nat
    recommends
        d > 0,
{
    let q = n / d;
    let r = n % d;
    if 2 * r > d {
        q + 1
    } else if 2 * r < d {
        q
    } else if q % 2 == 0 {
        q
    } else {
        q + 1
    }
}

/// Two to the power `n`.
pub open spec fn two_to(n: nat) -> nat
    decreases n,
{
    if n == 0 {
        1
    } else {
        2 * two_to((n - 1) as nat)
    }
}

/// The bits of `x` beyond the 53 a double holds, counted from `k` on.
pub open spec fn spare_bits(x: nat, k: nat) -> nat
    decreases 11 - k,
{
    if k >= 11 || x < two_to(53 + k) {
        k
    } else {
        spare_bits(x, k + 1)
    }
}

/// The double nearest the count `x` below 2^64: `x` itself below 2^53, else
/// `x` rounded to its 53 leading bits, a half to the even neighbour.
pub open spec fn as_double(x: nat) -> nat {
    let k = spare_bits(x, 0);
    rounded(x, two_to(k)) * two_to(k)
}

/// The scale of the double nearest `c / d`, from `s` down: its significand
/// is that quotient times two to the scale, 53 bits long.
pub open spec fn quotient_scale(c: nat, d: nat, s: nat) -> nat
    decreases s,
{
    if s == 0 || c * two_to(s) < two_to(53) * d {
        s
    } else {
        quotient_scale(c, d, (s - 1) as nat)
    }
}

/// The double nearest `c / d`, for `c / d` from 1 up to 2^53, written to
/// whole units of `1 / scale`, a half to the even neighbour: the double
/// quotient printed with as many decimals as `scale` has zeros.
pub open spec fn printed_quotient(c: nat, d: nat, scale: nat) -> nat {
    let s = quotient_scale(c, d, 52);
    let significand = rounded(c * two_to(s), d);
    rounded(significand * scale, two_to(s))
}

/// A count of tokens in thousands or millions, the count itself behind the
/// hover: the count as a double from a million on over a million, printed to
/// a tenth, from a thousand on over a thousand, printed whole, and under that
/// the count as it is.
pub open spec fn tokens_label_text(count: u64) -> Seq<char> {
    let tokens = as_double(count as nat);
    if tokens >= 1_000_000 {
        let tenths = printed_quotient(tokens, 1_000_000, 10);
        titled_text(
            decimal_digits(tenths / 10) + seq!['.', digit_char(tenths % 10), 'M'],
            decimal_digits(count as nat),
        )
    } else if tokens >= 1_000 {
        titled_text(
            decimal_digits(printed_quotient(tokens, 1_000, 1)) + seq!['k'],
            decimal_digits(count as nat),
        )
    } else {
        decimal_digits(count as nat)
    }
}

/// A whole number rounded to the nearest is no more than its quotient and one.
proof fn lemma_rounded_bound(n: nat, d: nat)
    requires
        d >= 1,
    ensures
        rounded(n, d) <= n / d + 1,
        rounded(n, d) <= n + 1,
{
    assert(n / d <= n) by (nonlinear_arith)
        requires
            d >= 1,
    ;
}

/// `n` over `d`, rounded to the nearest whole number, a half to the even one.
fn round(n: u128, d: u128) -> (r: u128)
    requires
        d >= 1,
        n < 0x1_0000_0000_0000_0000_0000_0000_0000_0000 - 1,
    ensures
        r == rounded(n as nat, d as nat),
{
    let q = n / d;
    let r = n % d;
    assert(q <= n) by (nonlinear_arith)
        requires
            q == n / d,
            d >= 1,
    ;
    if r > d - r {
        q + 1
    } else if r < d - r {
        q
    } else if q % 2 == 0 {
        q
    } else {
        q + 1
    }
}

/// The double nearest `count`, as a whole number.
fn nearest_double(count: u64) -> (tokens: u128)
    ensures
        tokens == as_double(count as nat),
        tokens <= two_to(64),
{
    let mut k: u128 = 0;
    let mut unit: u128 = 1;
    let mut limit: u128 = 0x20_0000_0000_0000;
    let ghost mut rest: nat = two_to(64);
    proof {
        lemma_two_to_values();
    }
    assert(two_to(0) == 1);
    while k < 11 && (count as u128) >= limit
        invariant
            k <= 11,
            unit == two_to(k as nat),
            limit == two_to((53 + k) as nat),
            unit <= 0x800,
            unit >= 1,
            rest == two_to((64 - k) as nat),
            unit * rest == 0x1_0000_0000_0000_0000,
            spare_bits(count as nat, 0) == spare_bits(count as nat, k as nat),
        decreases 11 - k,
    {
        assert(two_to((64 - k) as nat) == 2 * two_to((63 - k) as nat));
        assert(two_to((k + 1) as nat) == 2 * two_to(k as nat));
        assert(two_to((53 + k + 1) as nat) == 2 * two_to((53 + k) as nat));
        assert(unit * 2 <= 0x800) by {
            if k < 10 {
                lemma_two_to_grows((k + 1) as nat, 10);
            }
            lemma_two_to_values();
        }
        assert((unit * 2) * two_to((63 - k) as nat) == 0x1_0000_0000_0000_0000) by (nonlinear_arith)
            requires
                unit * rest == 0x1_0000_0000_0000_0000,
                rest == 2 * two_to((63 - k) as nat),
        ;
        k = k + 1;
        unit = unit * 2;
        limit = limit * 2;
        proof {
            rest = two_to((64 - k) as nat);
        }
    }
    assert(spare_bits(count as nat, k as nat) == k);
    let whole = round(count as u128, unit);
    proof {
        lemma_rounded_bound(count as nat, unit as nat);
        let q = count as nat / unit as nat;
        assert(q * unit <= count) by (nonlinear_arith)
            requires
                q == count as nat / unit as nat,
                unit >= 1,
        ;
        assert(whole * unit <= rest * unit) by (nonlinear_arith)
            requires
                q * unit <= count,
                count < rest * unit,
                whole <= q + 1,
                unit >= 1,
        ;
    }
    whole * unit
}

/// The powers of two that bound a double and a count.
proof fn lemma_two_to_values()
    ensures
        two_to(11) == 0x800,
        two_to(52) == 0x10_0000_0000_0000,
        two_to(53) == 0x20_0000_0000_0000,
        two_to(64) == 0x1_0000_0000_0000_0000,
{
    reveal_with_fuel(two_to, 65);
}

/// Two to a power no greater than another is no greater than it.
proof fn lemma_two_to_grows(a: nat, b: nat)
    requires
        a <= b,
    ensures
        two_to(a) <= two_to(b),
    decreases b,
{
    if a < b {
        lemma_two_to_grows(a, (b - 1) as nat);
    }
}

/// The double nearest `tokens / d`, printed in whole units of `1 / scale`.
fn print_quotient(tokens: u128, d: u128, scale: u128) -> (printed: u64)
    requires
        tokens <= two_to(64),
        1 <= d <= 1_000_000,
        d <= tokens,
        tokens < 0x20_0000_0000_0000 * d,
        1 <= scale <= 10,
    ensures
        printed == printed_quotient(tokens as nat, d as nat, scale as nat),
{
    let mut s: u128 = 52;
    let mut unit: u128 = 0x10_0000_0000_0000;
    let top: u128 = 0x20_0000_0000_0000 * d;
    proof {
        lemma_two_to_values();
    }
    assert(tokens * unit <= 0x1_0000_0000_0000_0000 * 0x10_0000_0000_0000) by (nonlinear_arith)
        requires
            tokens <= 0x1_0000_0000_0000_0000,
            unit == 0x10_0000_0000_0000,
    ;
    while s > 0 && tokens * unit >= top
        invariant
            s <= 52,
            unit == two_to(s as nat),
            unit <= 0x10_0000_0000_0000,
            tokens <= 0x1_0000_0000_0000_0000,
            top == two_to(53) * d,
            tokens < 0x20_0000_0000_0000 * d,
            top == 0x20_0000_0000_0000 * d,
            d <= 1_000_000,
            tokens * unit <= 0x1_0000_0000_0000_0000 * 0x10_0000_0000_0000,
            quotient_scale(tokens as nat, d as nat, 52) == quotient_scale(
                tokens as nat,
                d as nat,
                s as nat,
            ),
        decreases s,
    {
        assert(two_to(s as nat) == 2 * two_to((s - 1) as nat));
        s = s - 1;
        unit = unit / 2;
        assert(tokens * unit <= 0x1_0000_0000_0000_0000 * 0x10_0000_0000_0000) by (nonlinear_arith)
            requires
                tokens <= 0x1_0000_0000_0000_0000,
                unit <= 0x10_0000_0000_0000,
        ;
    }
    assert(quotient_scale(tokens as nat, d as nat, s as nat) == s);
    assert(tokens * unit < top) by {
        if s == 0 {
            assert(unit == 1);
            assert(tokens * unit == tokens) by (nonlinear_arith)
                requires
                    unit == 1,
            ;
        }
    }
    assert(unit >= 1) by {
        lemma_two_to_grows(0, s as nat);
    }
    let significand = round(tokens * unit, d);
    proof {
        lemma_rounded_bound((tokens * unit) as nat, d as nat);
        assert((tokens * unit) / (d as int) < two_to(53)) by (nonlinear_arith)
            requires
                tokens * unit < two_to(53) * d,
                d >= 1,
        ;
    }
    assert(significand <= 0x20_0000_0000_0000);
    assert(significand * scale <= 0x20_0000_0000_0000 * 10) by (nonlinear_arith)
        requires
            significand <= 0x20_0000_0000_0000,
            scale <= 10,
    ;
    let printed = round(significand * scale, unit);
    proof {
        lemma_rounded_bound((significand * scale) as nat, unit as nat);
    }
    assert(printed < 0x1_0000_0000_0000_0000) by (nonlinear_arith)
        requires
            printed <= significand * scale + 1,
            significand <= 0x20_0000_0000_0000,
            scale <= 10,
    ;
    printed as u64
}

/// A count of tokens in thousands or millions, the count itself behind the hover.
pub fn tokens_label(count: u64) -> (label: String)
    ensures
        label@ == tokens_label_text(count),
{
    let exact = decimal(count);
    let tokens = nearest_double(count);
    proof {
        lemma_two_to_values();
    }
    if tokens >= 1_000_000 {
        let tenths = print_quotient(tokens, 1_000_000, 10);
        let mut compact = decimal(tenths / 10);
        push_char(&mut compact, '.');
        push_char(&mut compact, ((tenths % 10) as u8 + 48u8) as char);
        push_char(&mut compact, 'M');
        assert(compact@ =~= decimal_digits((tenths / 10) as nat) + seq![
            '.',
            digit_char((tenths % 10) as nat),
            'M',
        ]);
        titled(compact.as_str(), exact.as_str())
    } else if tokens >= 1_000 {
        let mut compact = decimal(print_quotient(tokens, 1_000, 1));
        push_char(&mut compact, 'k');
        titled(compact.as_str(), exact.as_str())
    } else {
        exact
    }
}

/// One measure of a model, a column of the tables.
#[derive(Clone, Copy)]
pub enum Column {
    FirstPass,
    FirstPassTokens,
    HighScore,
    HighScoreTokens,
    Score,
    CostPerScore,
}

/// The header of `column`, with its explanation behind the hover.
pub open spec fn column_header(column: Column) -> &'static str {
    match column {
        Column::FirstPass => "#mean time to first pass|the mean second of the scoring clock at which the first push passed, over the runs that passed",
        Column::FirstPassTokens => "#mean tokens to first pass|the mean tokens through the backend until that push, input, cache and output alike",
        Column::HighScore => "#mean time to high score|the mean second at which the entry of record was pushed, the best entry of the run, over the runs that kept one",
        Column::HighScoreTokens => "#mean tokens to high score|the mean tokens through the backend until that push",
        Column::Score => "#score|the share of the rounds against other agents won, half for a draw",
        Column::CostPerScore => "#mean cost per score|the dollars of its runs at the prices of the registry over the rounds it won, a draw counting half",
    }
}

impl Column {
    /// The header of the column, with its explanation behind the hover.
    pub fn header(self) -> (header: &'static str)
        ensures
            header == column_header(self),
    {
        match self {
            Column::FirstPass => "#mean time to first pass|the mean second of the scoring clock at which the first push passed, over the runs that passed",
            Column::FirstPassTokens => "#mean tokens to first pass|the mean tokens through the backend until that push, input, cache and output alike",
            Column::HighScore => "#mean time to high score|the mean second at which the entry of record was pushed, the best entry of the run, over the runs that kept one",
            Column::HighScoreTokens => "#mean tokens to high score|the mean tokens through the backend until that push",
            Column::Score => "#score|the share of the rounds against other agents won, half for a draw",
            Column::CostPerScore => "#mean cost per score|the dollars of its runs at the prices of the registry over the rounds it won, a draw counting half",
        }
    }
}

/// Every column's header opens with the name of its own measure, up to the
/// bar that sets the explanation apart.
#[verifier::spinoff_prover]
pub proof fn law_each_header_names_its_measure(column: Column)
    ensures
        column == Column::FirstPass ==> "#mean time to first pass|"@.is_prefix_of(column_header(column)@),
        column == Column::FirstPassTokens ==> "#mean tokens to first pass|"@.is_prefix_of(column_header(column)@),
        column == Column::HighScore ==> "#mean time to high score|"@.is_prefix_of(column_header(column)@),
        column == Column::HighScoreTokens ==> "#mean tokens to high score|"@.is_prefix_of(column_header(column)@),
        column == Column::Score ==> "#score|"@.is_prefix_of(column_header(column)@),
        column == Column::CostPerScore ==> "#mean cost per score|"@.is_prefix_of(column_header(column)@),
{
    match column {
        Column::FirstPass => {
            reveal_strlit("#mean time to first pass|");
            reveal_strlit("#mean time to first pass|the mean second of the scoring clock at which the first push passed, over the runs that passed");
            assert("#mean time to first pass|"@ =~= "#mean time to first pass|the mean second of the scoring clock at which the first push passed, over the runs that passed"@.subrange(0, "#mean time to first pass|"@.len() as int));
        },
        Column::FirstPassTokens => {
            reveal_strlit("#mean tokens to first pass|");
            reveal_strlit("#mean tokens to first pass|the mean tokens through the backend until that push, input, cache and output alike");
            assert("#mean tokens to first pass|"@ =~= "#mean tokens to first pass|the mean tokens through the backend until that push, input, cache and output alike"@.subrange(0, "#mean tokens to first pass|"@.len() as int));
        },
        Column::HighScore => {
            reveal_strlit("#mean time to high score|");
            reveal_strlit("#mean time to high score|the mean second at which the entry of record was pushed, the best entry of the run, over the runs that kept one");
            assert("#mean time to high score|"@ =~= "#mean time to high score|the mean second at which the entry of record was pushed, the best entry of the run, over the runs that kept one"@.subrange(0, "#mean time to high score|"@.len() as int));
        },
        Column::HighScoreTokens => {
            reveal_strlit("#mean tokens to high score|");
            reveal_strlit("#mean tokens to high score|the mean tokens through the backend until that push");
            assert("#mean tokens to high score|"@ =~= "#mean tokens to high score|the mean tokens through the backend until that push"@.subrange(0, "#mean tokens to high score|"@.len() as int));
        },
        Column::Score => {
            reveal_strlit("#score|");
            reveal_strlit("#score|the share of the rounds against other agents won, half for a draw");
            assert("#score|"@ =~= "#score|the share of the rounds against other agents won, half for a draw"@.subrange(0, "#score|"@.len() as int));
        },
        Column::CostPerScore => {
            reveal_strlit("#mean cost per score|");
            reveal_strlit("#mean cost per score|the dollars of its runs at the prices of the registry over the rounds it won, a draw counting half");
            assert("#mean cost per score|"@ =~= "#mean cost per score|the dollars of its runs at the prices of the registry over the rounds it won, a draw counting half"@.subrange(0, "#mean cost per score|"@.len() as int));
        },
    }
}

/// The hues a series is coloured from.
pub const HUES: u64 = 360;

/// The first place of `name` among `names`, if it stands there.
pub open spec fn position_of(names: Seq<String>, name: Seq<char>) -> Option<nat>
    decreases names.len(),
{
    if names.len() == 0 {
        None
    } else if names[0]@ == name {
        Some(0)
    } else {
        match position_of(names.drop_first(), name) {
            Some(p) => Some(p + 1),
            None => None,
        }
    }
}

/// The hue of `harness` among `harnesses`: its place, nothing for none,
/// spread evenly over the wheel.
pub open spec fn harness_hue_of(harnesses: Seq<String>, harness: Seq<char>) -> nat {
    let position = match position_of(harnesses, harness) {
        Some(p) => p,
        None => 0,
    };
    let count = if harnesses.len() > 0 {
        harnesses.len()
    } else {
        1
    };
    position * (HUES as nat) / count
}

/// The first place of `name` among `names`, if it stands there.
pub fn find_name(names: &[String], name: &str) -> (position: Option<usize>)
    ensures
        match position {
            Some(p) => position_of(names@, name@) == Some(p as nat) && p < names@.len(),
            None => position_of(names@, name@) is None,
        },
{
    let mut i: usize = 0;
    assert(names@.skip(0) =~= names@);
    while i < names.len()
        invariant
            i <= names@.len(),
            position_of(names@, name@) == (match position_of(names@.skip(i as int), name@) {
                Some(p) => Some((p + i) as nat),
                None => None,
            }),
        decreases names@.len() - i,
    {
        assert(names@.skip(i as int).drop_first() =~= names@.skip(i + 1));
        assert(names@.skip(i as int)[0] == names@[i as int]);
        if same_text(names[i].as_str(), name) {
            return Some(i);
        }
        i = i + 1;
    }
    assert(names@.skip(i as int) =~= Seq::<String>::empty());
    None
}

/// The hue of `harness` among `harnesses`: spread evenly over the wheel,
/// since a handful of names hashed can land next to each other.
pub fn harness_hue(harnesses: &[String], harness: &str) -> (hue: u64)
    requires
        harnesses@.len() * HUES <= u64::MAX,
    ensures
        hue == harness_hue_of(harnesses@, harness@),
{
    let position: u64 = match find_name(harnesses, harness) {
        Some(p) => p as u64,
        None => 0,
    };
    let count: u64 = if harnesses.len() > 0 {
        harnesses.len() as u64
    } else {
        1
    };
    proof {
        vstd::arithmetic::mul::lemma_mul_inequality(position as int, count as int, HUES as int);
    }
    position * HUES / count
}

/// The character of the base64 digit `v`.
pub open spec fn base64_char(v: nat) -> char {
    if v < 26 {
        (65 + v) as char
    } else if v < 52 {
        (97 + v - 26) as char
    } else if v < 62 {
        (48 + v - 52) as char
    } else if v == 62 {
        '+'
    } else {
        '/'
    }
}

/// The base64 block of `chunk`, one to three bytes: four characters, one
/// for every six bits, padded with `=` for the bytes missing.
pub open spec fn base64_block(chunk: Seq<u8>) -> Seq<char> {
    let b1: nat = if chunk.len() > 1 {
        chunk[1] as nat
    } else {
        0
    };
    let b2: nat = if chunk.len() > 2 {
        chunk[2] as nat
    } else {
        0
    };
    let bits = chunk[0] as nat * 65536 + b1 * 256 + b2;
    seq![
        base64_char(bits / 262144 % 64),
        base64_char(bits / 4096 % 64),
        if chunk.len() > 1 {
            base64_char(bits / 64 % 64)
        } else {
            '='
        },
        if chunk.len() > 2 {
            base64_char(bits % 64)
        } else {
            '='
        },
    ]
}

/// `bytes` in base64, with the standard alphabet and padding.
pub open spec fn base64_text(bytes: Seq<u8>) -> Seq<char>
    decreases bytes.len(),
{
    if bytes.len() == 0 {
        seq![]
    } else if bytes.len() <= 3 {
        base64_block(bytes)
    } else {
        base64_block(bytes.take(3)) + base64_text(bytes.skip(3))
    }
}

/// The character of the base64 digit `v`.
fn base64_digit(v: u32) -> (c: char)
    requires
        v < 64,
    ensures
        c == base64_char(v as nat),
{
    if v < 26 {
        ((v as u8) + 65u8) as char
    } else if v < 52 {
        ((v as u8) - 26u8 + 97u8) as char
    } else if v < 62 {
        ((v as u8) - 52u8 + 48u8) as char
    } else if v == 62 {
        '+'
    } else {
        '/'
    }
}

/// The six bits of a block at each place, read by shifting and masking.
proof fn lemma_sextets(bits: u32)
    requires
        bits < 0x100_0000,
    ensures
        (bits >> 18u32) & 0x3f == bits / 262144 % 64,
        (bits >> 12u32) & 0x3f == bits / 4096 % 64,
        (bits >> 6u32) & 0x3f == bits / 64 % 64,
        (bits >> 0u32) & 0x3f == bits % 64,
{
    assert((bits >> 18u32) & 0x3f == bits / 262144 % 64) by (bit_vector);
    assert((bits >> 12u32) & 0x3f == bits / 4096 % 64) by (bit_vector);
    assert((bits >> 6u32) & 0x3f == bits / 64 % 64) by (bit_vector);
    assert((bits >> 0u32) & 0x3f == bits % 64) by (bit_vector);
}

/// Appends the base64 block of `bytes[at..at + len]`.
fn push_block(encoded: &mut String, bytes: &[u8], at: usize, len: usize)
    requires
        1 <= len <= 3,
        at + len <= bytes@.len(),
    ensures
        final(encoded)@ == old(encoded)@ + base64_block(bytes@.subrange(at as int, at + len)),
{
    let ghost chunk = bytes@.subrange(at as int, at + len);
    let b0 = bytes[at] as u32;
    let b1 = if len > 1 {
        bytes[at + 1] as u32
    } else {
        0
    };
    let b2 = if len > 2 {
        bytes[at + 2] as u32
    } else {
        0
    };
    let bits: u32 = b0 * 65536 + b1 * 256 + b2;
    proof {
        lemma_sextets(bits);
    }
    assert(bits as nat == chunk[0] as nat * 65536 + (if chunk.len() > 1 {
        chunk[1] as nat
    } else {
        0
    }) * 256 + (if chunk.len() > 2 {
        chunk[2] as nat
    } else {
        0
    }));
    push_char(encoded, base64_digit((bits >> 18u32) & 0x3f));
    push_char(encoded, base64_digit((bits >> 12u32) & 0x3f));
    if len > 1 {
        push_char(encoded, base64_digit((bits >> 6u32) & 0x3f));
    } else {
        push_char(encoded, '=');
    }
    if len > 2 {
        push_char(encoded, base64_digit((bits >> 0u32) & 0x3f));
    } else {
        push_char(encoded, '=');
    }
    assert(final(encoded)@ =~= old(encoded)@ + base64_block(chunk));
}

/// `bytes` in base64, for a font inside a stylesheet.
pub fn base64(bytes: &[u8]) -> (encoded: String)
    ensures
        encoded@ == base64_text(bytes@),
{
    let mut encoded = String::new();
    let mut at: usize = 0;
    let n = bytes.len();
    assert(bytes@.skip(0) =~= bytes@);
    while at < n
        invariant
            n == bytes@.len(),
            at <= n,
            base64_text(bytes@) == encoded@ + base64_text(bytes@.skip(at as int)),
        decreases n - at,
    {
        let ghost rest = bytes@.skip(at as int);
        let len = if n - at < 3 {
            n - at
        } else {
            3
        };
        push_block(&mut encoded, bytes, at, len);
        if n - at <= 3 {
            assert(rest =~= bytes@.subrange(at as int, at + len));
            assert(bytes@.skip(at + len) =~= Seq::<u8>::empty());
        } else {
            assert(rest.take(3) =~= bytes@.subrange(at as int, at + 3));
            assert(rest.skip(3) =~= bytes@.skip(at + 3));
        }
        at = at + len;
    }
    assert(encoded@ + Seq::<char>::empty() =~= encoded@);
    encoded
}

/// Every three bytes, and the bytes left over, take four characters.
pub proof fn law_base64_length(bytes: Seq<u8>)
    ensures
        base64_text(bytes).len() == 4 * ((bytes.len() + 2) / 3),
    decreases bytes.len(),
{
    if bytes.len() > 3 {
        law_base64_length(bytes.skip(3));
    }
}

/// The value of the base64 digit `c`.
pub open spec fn base64_value(c: char) -> nat {
    let v = c as u32;
    if 65 <= v <= 90 {
        (v - 65) as nat
    } else if 97 <= v <= 122 {
        (v - 97 + 26) as nat
    } else if 48 <= v <= 57 {
        (v - 48 + 52) as nat
    } else if c == '+' {
        62
    } else {
        63
    }
}

/// The bytes a block of four base64 characters stands for, one or two
/// fewer for its padding.
pub open spec fn base64_unblock(block: Seq<char>) -> Seq<u8> {
    let v2: nat = if block[2] == '=' {
        0
    } else {
        base64_value(block[2])
    };
    let v3: nat = if block[3] == '=' {
        0
    } else {
        base64_value(block[3])
    };
    let bits = base64_value(block[0]) * 262144 + base64_value(block[1]) * 4096 + v2 * 64 + v3;
    let bytes = seq![(bits / 65536 % 256) as u8, (bits / 256 % 256) as u8, (bits % 256) as u8];
    if block[2] == '=' {
        bytes.take(1)
    } else if block[3] == '=' {
        bytes.take(2)
    } else {
        bytes
    }
}

/// The bytes base64 text stands for, block by block.
pub open spec fn base64_decoded(text: Seq<char>) -> Seq<u8>
    decreases text.len(),
{
    if text.len() < 4 {
        seq![]
    } else {
        base64_unblock(text.take(4)) + base64_decoded(text.skip(4))
    }
}

/// A base64 digit reads back as its value.
proof fn lemma_base64_digit(v: nat)
    requires
        v < 64,
    ensures
        base64_value(base64_char(v)) == v,
        base64_char(v) != '=',
{
}

/// The six-bit pieces of three bytes put together again are the bytes, and
/// the pieces standing for missing bytes are nothing.
proof fn lemma_block_bits(b0: u32, b1: u32, b2: u32)
    requires
        b0 < 256,
        b1 < 256,
        b2 < 256,
    ensures
        ((b0 * 65536 + b1 * 256 + b2) / 262144 % 64) * 262144 + ((b0 * 65536 + b1 * 256 + b2)
            / 4096 % 64) * 4096 + ((b0 * 65536 + b1 * 256 + b2) / 64 % 64) * 64 + (b0 * 65536 + b1
            * 256 + b2) % 64 == b0 * 65536 + b1 * 256 + b2,
        (b0 * 65536 + b1 * 256 + b2) / 65536 % 256 == b0,
        (b0 * 65536 + b1 * 256 + b2) / 256 % 256 == b1,
        (b0 * 65536 + b1 * 256 + b2) % 256 == b2,
        b2 == 0 ==> (b0 * 65536 + b1 * 256 + b2) % 64 == 0,
        b1 == 0 && b2 == 0 ==> (b0 * 65536 + b1 * 256 + b2) / 64 % 64 == 0,
{
    assert(((b0 * 65536 + b1 * 256 + b2) / 262144 % 64) * 262144 + ((b0 * 65536 + b1 * 256 + b2)
        / 4096 % 64) * 4096 + ((b0 * 65536 + b1 * 256 + b2) / 64 % 64) * 64 + (b0 * 65536 + b1
        * 256 + b2) % 64 == b0 * 65536 + b1 * 256 + b2) by (bit_vector)
        requires
            b0 < 256,
            b1 < 256,
            b2 < 256,
    ;
    assert((b0 * 65536 + b1 * 256 + b2) / 65536 % 256 == b0) by (bit_vector)
        requires
            b0 < 256,
            b1 < 256,
            b2 < 256,
    ;
    assert((b0 * 65536 + b1 * 256 + b2) / 256 % 256 == b1) by (bit_vector)
        requires
            b0 < 256,
            b1 < 256,
            b2 < 256,
    ;
    assert((b0 * 65536 + b1 * 256 + b2) % 256 == b2) by (bit_vector)
        requires
            b0 < 256,
            b1 < 256,
            b2 < 256,
    ;
    assert(b2 == 0 ==> (b0 * 65536 + b1 * 256 + b2) % 64 == 0) by (bit_vector)
        requires
            b0 < 256,
            b1 < 256,
            b2 < 256,
    ;
    assert(b1 == 0 && b2 == 0 ==> (b0 * 65536 + b1 * 256 + b2) / 64 % 64 == 0) by (bit_vector)
        requires
            b0 < 256,
            b1 < 256,
            b2 < 256,
    ;
}

/// A block of base64 reads back as the bytes it was made of.
proof fn lemma_block_round_trip(chunk: Seq<u8>)
    requires
        1 <= chunk.len() <= 3,
    ensures
        base64_unblock(base64_block(chunk)) == chunk,
{
    let b0 = chunk[0] as u32;
    let b1: u32 = if chunk.len() > 1 {
        chunk[1] as u32
    } else {
        0
    };
    let b2: u32 = if chunk.len() > 2 {
        chunk[2] as u32
    } else {
        0
    };
    lemma_block_bits(b0, b1, b2);
    let bits = (b0 * 65536 + b1 * 256 + b2) as nat;
    let block = base64_block(chunk);
    lemma_base64_digit(bits / 262144 % 64);
    lemma_base64_digit(bits / 4096 % 64);
    lemma_base64_digit(bits / 64 % 64);
    lemma_base64_digit(bits % 64);
    assert(base64_unblock(block) =~= chunk);
}

/// Base64 loses nothing: the text reads back as the bytes it was made of.
pub proof fn law_base64_reads_back(bytes: Seq<u8>)
    ensures
        base64_decoded(base64_text(bytes)) == bytes,
    decreases bytes.len(),
{
    if bytes.len() == 0 {
    } else if bytes.len() <= 3 {
        lemma_block_round_trip(bytes);
        let text = base64_text(bytes);
        assert(text.take(4) =~= text);
        assert(text.skip(4) =~= Seq::<char>::empty());
        assert(base64_decoded(text.skip(4)) =~= Seq::<u8>::empty());
        assert(base64_decoded(text) == base64_unblock(text.take(4)) + base64_decoded(text.skip(4)));
        assert(base64_decoded(text) =~= bytes);
    } else {
        law_base64_reads_back(bytes.skip(3));
        lemma_block_round_trip(bytes.take(3));
        let text = base64_text(bytes);
        let head = base64_block(bytes.take(3));
        assert(text.take(4) =~= head);
        assert(text.skip(4) =~= base64_text(bytes.skip(3)));
        assert(bytes.take(3) + bytes.skip(3) =~= bytes);
    }
}

/// `bytes` of the content type `kind` as an address carrying them.
pub open spec fn data_uri_text(kind: Seq<char>, bytes: Seq<u8>) -> Seq<char> {
    "data:"@ + kind + ";base64,"@ + base64_text(bytes)
}

/// `bytes` of the content type `kind` as an address carrying them.
pub fn data_uri(kind: &str, bytes: &[u8]) -> (uri: String)
    ensures
        uri@ == data_uri_text(kind@, bytes@),
{
    let mut uri = "data:".to_owned();
    uri.append(kind);
    uri.append(";base64,");
    let encoded = base64(bytes);
    uri.append(encoded.as_str());
    uri
}

/// How a row of tabs looks: the classes of the row and of a tab.
pub struct TabStyle {
    pub row: &'static str,
    pub tab: &'static str,
}

/// The id of the tab at `index` on `field`.
pub open spec fn tab_id(field: Seq<char>, index: nat) -> Seq<char> {
    field + "-"@ + decimal_digits(index)
}

/// The button of the tab at `index` on `field`, the first one checked.
pub open spec fn tab_button(field: Seq<char>, index: nat, label: Seq<char>, class: Seq<char>) -> Seq<
    char,
> {
    "<span><input type=\"radio\" name=\""@ + field + "\" id=\""@ + tab_id(field, index)
        + "\" class=\"peer sr-only\""@ + (if index == 0 {
        " checked"@
    } else {
        Seq::<char>::empty()
    }) + "><label for=\""@ + tab_id(field, index) + "\" class=\""@ + class + "\">"@ + label
        + "</label></span>"@
}

/// The box of the pane at `index` on `field`.
pub open spec fn pane_box(field: Seq<char>, index: nat, pane: Seq<char>) -> Seq<char> {
    "<div class=\""@ + field + "-pane-"@ + decimal_digits(index) + "\">"@ + pane + "</div>"@
}

/// The rule hiding the pane at `index` on `field` while its tab is not checked.
pub open spec fn pane_rule(field: Seq<char>, index: nat) -> Seq<char> {
    "."@ + field + "s"@ + ":not(:has(#"@ + tab_id(field, index) + ":checked)) ."@ + field
        + "-pane-"@ + decimal_digits(index) + "{display:none}"@
}

/// The buttons of `panes` on `field`.
pub open spec fn tab_row(field: Seq<char>, class: Seq<char>, panes: Seq<(String, String)>) -> Seq<
    char,
>
    decreases panes.len(),
{
    if panes.len() == 0 {
        seq![]
    } else {
        tab_row(field, class, panes.drop_last()) + tab_button(
            field,
            (panes.len() - 1) as nat,
            panes.last().0@,
            class,
        )
    }
}

/// The boxes of `panes` on `field`.
pub open spec fn pane_boxes(field: Seq<char>, panes: Seq<(String, String)>) -> Seq<char>
    decreases panes.len(),
{
    if panes.len() == 0 {
        seq![]
    } else {
        pane_boxes(field, panes.drop_last()) + pane_box(
            field,
            (panes.len() - 1) as nat,
            panes.last().1@,
        )
    }
}

/// The rules of the first `count` panes on `field`.
pub open spec fn pane_rules(field: Seq<char>, count: nat) -> Seq<char>
    decreases count,
{
    if count == 0 {
        seq![]
    } else {
        pane_rules(field, (count - 1) as nat) + pane_rule(field, (count - 1) as nat)
    }
}

/// `panes` as tabs on `field` in `style`.
pub open spec fn tabs_text(field: Seq<char>, style: TabStyle, panes: Seq<(String, String)>) -> Seq<
    char,
> {
    "<div class=\""@ + field + "s"@ + "\"><style>"@ + pane_rules(field, panes.len())
        + "</style><div class=\""@ + style.row@ + "\">"@ + tab_row(field, style.tab@, panes)
        + "</div>"@ + pane_boxes(field, panes) + "</div>"@
}

/// Appends the button of the tab at `index` on `field`.
#[verifier::spinoff_prover]
#[verifier::rlimit(40)]
fn push_button(row: &mut String, field: &str, index: usize, label: &str, class: &str)
    ensures
        final(row)@ == old(row)@ + tab_button(field@, index as nat, label@, class@),
{
    let number = decimal(index as u64);
    let number = number.as_str();
    row.append("<span><input type=\"radio\" name=\"");
    row.append(field);
    row.append("\" id=\"");
    row.append(field);
    row.append("-");
    row.append(number);
    row.append("\" class=\"peer sr-only\"");
    if index == 0 {
        row.append(" checked");
    }
    row.append("><label for=\"");
    row.append(field);
    row.append("-");
    row.append(number);
    row.append("\" class=\"");
    row.append(class);
    row.append("\">");
    row.append(label);
    row.append("</label></span>");
    assert(final(row)@ =~= old(row)@ + tab_button(field@, index as nat, label@, class@));
}

/// Appends the box of the pane at `index` on `field`.
fn push_pane(content: &mut String, field: &str, index: usize, pane: &str)
    ensures
        final(content)@ == old(content)@ + pane_box(field@, index as nat, pane@),
{
    let number = decimal(index as u64);
    content.append("<div class=\"");
    content.append(field);
    content.append("-pane-");
    content.append(number.as_str());
    content.append("\">");
    content.append(pane);
    content.append("</div>");
    assert(final(content)@ =~= old(content)@ + pane_box(field@, index as nat, pane@));
}

/// Appends the rule of the pane at `index` on `field`.
fn push_pane_rule(rules: &mut String, field: &str, index: usize)
    ensures
        final(rules)@ == old(rules)@ + pane_rule(field@, index as nat),
{
    let number = decimal(index as u64);
    let number = number.as_str();
    rules.append(".");
    rules.append(field);
    rules.append("s");
    rules.append(":not(:has(#");
    rules.append(field);
    rules.append("-");
    rules.append(number);
    rules.append(":checked)) .");
    rules.append(field);
    rules.append("-pane-");
    rules.append(number);
    rules.append("{display:none}");
    assert(final(rules)@ =~= old(rules)@ + pane_rule(field@, index as nat));
}

/// `panes`, each a label as markup and its content, as tabs: a row of the
/// labels and the content of the chosen one under it, the first to begin
/// with. The tabs are radio buttons sharing `field`, which also names their
/// ids, their panes and the class of the box scoping their rules, so the file
/// needs no script to switch them and rows nest on fields of their own.
pub fn tabs(field: &str, style: &TabStyle, panes: &[(String, String)]) -> (markup: String)
    ensures
        markup@ == tabs_text(field@, *style, panes@),
{
    let mut row = String::new();
    let mut content = String::new();
    let mut rules = String::new();
    let mut index: usize = 0;
    assert(panes@.take(0) =~= Seq::<(String, String)>::empty());
    while index < panes.len()
        invariant
            index <= panes@.len(),
            row@ == tab_row(field@, style.tab@, panes@.take(index as int)),
            content@ == pane_boxes(field@, panes@.take(index as int)),
            rules@ == pane_rules(field@, index as nat),
        decreases panes@.len() - index,
    {
        let (label, pane) = &panes[index];
        push_button(&mut row, field, index, label.as_str(), style.tab);
        push_pane(&mut content, field, index, pane.as_str());
        push_pane_rule(&mut rules, field, index);

        let ghost taken = panes@.take(index + 1);
        assert(taken.drop_last() =~= panes@.take(index as int));
        assert(taken.last() == panes@[index as int]);
        assert(row@ =~= tab_row(field@, style.tab@, taken));
        assert(content@ =~= pane_boxes(field@, taken));
        assert(rules@ =~= pane_rules(field@, (index + 1) as nat));
        index = index + 1;
    }
    assert(panes@.take(index as int) =~= panes@);
    let mut markup = "<div class=\"".to_owned();
    markup.append(field);
    markup.append("s");
    markup.append("\"><style>");
    markup.append(rules.as_str());
    markup.append("</style><div class=\"");
    markup.append(style.row);
    markup.append("\">");
    markup.append(row.as_str());
    markup.append("</div>");
    markup.append(content.as_str());
    markup.append("</div>");
    assert(markup@ =~= tabs_text(field@, *style, panes@));
    markup
}

/// Where the head of the layout ends.
pub const HEAD_END: &'static str = "</head>";

/// The tag of the layout loading the styles from the server, replaced by
/// the styles themselves.
pub const TAILWIND_TAG: &'static str = "<script src=\"/assets/tailwind.js\"></script>";

/// Where the layout loads the fonts from, replaced by the fonts themselves.
pub const FONT_ADDRESS_PREFIX: &'static str = "/assets/fonts/";

/// The classes of the body and of the main column of the file.
pub const BODY_CLASSES: &'static str = "bg-neutral-950 text-neutral-200 font-sans text-sm antialiased";
pub const MAIN_CLASSES: &'static str = "max-w-7xl mx-auto px-6 py-10";

/// A file the interface serves, by its name.
pub struct Asset {
    pub name: String,
    pub bytes: Vec<u8>,
}

/// The logo of a game: the address the pages load it from, its content type
/// and its bytes.
pub struct Logo {
    pub address: String,
    pub kind: String,
    pub bytes: Vec<u8>,
}

/// What the interface serves beside its pages, which a file standing on its
/// own carries inside it: the layout of the pages with the placeholder of
/// their title, the fonts, the styles, the sprite sheets under the address
/// they are loaded from, and the script sorting the tables.
pub struct Assets {
    pub layout: String,
    pub title_placeholder: String,
    pub fonts: Vec<Asset>,
    pub font_content_type: String,
    pub tailwind: String,
    pub sprite_path: String,
    pub sprites: Vec<Asset>,
    pub sprite_content_type: String,
    pub table_sort: String,
}

/// What stands in `s` before the first `pattern`.
pub open spec fn before_first(s: Seq<char>, pattern: Seq<char>) -> Seq<char>
    decreases s.len(),
{
    if s.len() == 0 || occurs_at(s, pattern, 0) {
        seq![]
    } else {
        seq![s[0]] + before_first(s.drop_first(), pattern)
    }
}

/// `head` with the address of every font of `fonts` replaced by the font itself.
pub open spec fn fonts_inside(head: Seq<char>, fonts: Seq<Asset>, kind: Seq<char>) -> Seq<char>
    decreases fonts.len(),
{
    if fonts.len() == 0 {
        head
    } else {
        replaced(
            fonts_inside(head, fonts.drop_last(), kind),
            FONT_ADDRESS_PREFIX@ + fonts.last().name@,
            data_uri_text(kind, fonts.last().bytes@),
        )
    }
}

/// `body` with the address of every sheet of `sprites` under `path`
/// replaced by the sheet itself.
pub open spec fn sprites_inside(body: Seq<char>, sprites: Seq<Asset>, path: Seq<char>, kind: Seq<
    char,
>) -> Seq<char>
    decreases sprites.len(),
{
    if sprites.len() == 0 {
        body
    } else {
        replaced(
            sprites_inside(body, sprites.drop_last(), path, kind),
            path + sprites.last().name@,
            data_uri_text(kind, sprites.last().bytes@),
        )
    }
}

/// `body` with the address of every logo of `logos` replaced by the logo itself.
pub open spec fn logos_inside(body: Seq<char>, logos: Seq<Logo>) -> Seq<char>
    decreases logos.len(),
{
    if logos.len() == 0 {
        body
    } else {
        replaced(
            logos_inside(body, logos.drop_last()),
            logos.last().address@,
            data_uri_text(logos.last().kind@, logos.last().bytes@),
        )
    }
}

/// With no fonts the head stays as it is; one font puts its data in place of
/// every occurrence of its address under the fonts prefix; and fonts go in
/// one after another: the fonts of `earlier` and then those of `later` are
/// the fonts of both, so every font of the list is inlined, not the last one
/// alone.
#[verifier::spinoff_prover]
pub proof fn law_fonts_go_in_one_after_another(
    head: Seq<char>,
    font: Asset,
    earlier: Seq<Asset>,
    later: Seq<Asset>,
    kind: Seq<char>,
)
    ensures
        fonts_inside(head, seq![], kind) == head,
        fonts_inside(head, seq![font], kind) == replaced(
            head,
            "/assets/fonts/"@ + font.name@,
            "data:"@ + kind + ";base64,"@ + base64_text(font.bytes@),
        ),
        fonts_inside(head, earlier + later, kind) == fonts_inside(
            fonts_inside(head, earlier, kind),
            later,
            kind,
        ),
    decreases later.len(),
{
    assert(seq![font].drop_last() =~= Seq::<Asset>::empty());
    assert(fonts_inside(head, seq![font].drop_last(), kind) == head);
    assert(seq![font].last() == font);
    assert(FONT_ADDRESS_PREFIX@ == "/assets/fonts/"@);
    assert(data_uri_text(kind, font.bytes@) == "data:"@ + kind + ";base64,"@ + base64_text(
        font.bytes@,
    ));
    if later.len() == 0 {
        assert(earlier + later =~= earlier);
    } else {
        law_fonts_go_in_one_after_another(head, font, earlier, later.drop_last(), kind);
        assert((earlier + later).drop_last() =~= earlier + later.drop_last());
        assert((earlier + later).last() == later.last());
    }
}

/// Sprite sheets go in as fonts do: none changes nothing, one puts its data in
/// place of its address under `path`, and the sheets of `earlier` then those
/// of `later` are the sheets of both.
#[verifier::spinoff_prover]
pub proof fn law_sprites_go_in_one_after_another(
    body: Seq<char>,
    sprite: Asset,
    earlier: Seq<Asset>,
    later: Seq<Asset>,
    path: Seq<char>,
    kind: Seq<char>,
)
    ensures
        sprites_inside(body, seq![], path, kind) == body,
        sprites_inside(body, seq![sprite], path, kind) == replaced(
            body,
            path + sprite.name@,
            "data:"@ + kind + ";base64,"@ + base64_text(sprite.bytes@),
        ),
        sprites_inside(body, earlier + later, path, kind) == sprites_inside(
            sprites_inside(body, earlier, path, kind),
            later,
            path,
            kind,
        ),
    decreases later.len(),
{
    assert(seq![sprite].drop_last() =~= Seq::<Asset>::empty());
    assert(sprites_inside(body, seq![sprite].drop_last(), path, kind) == body);
    assert(seq![sprite].last() == sprite);
    if later.len() == 0 {
        assert(earlier + later =~= earlier);
    } else {
        law_sprites_go_in_one_after_another(body, sprite, earlier, later.drop_last(), path, kind);
        assert((earlier + later).drop_last() =~= earlier + later.drop_last());
        assert((earlier + later).last() == later.last());
    }
}

/// Logos go in as fonts do: none changes nothing, one puts its data in place
/// of its address, and the logos of `earlier` then those of `later` are the
/// logos of both.
#[verifier::spinoff_prover]
pub proof fn law_logos_go_in_one_after_another(
    body: Seq<char>,
    logo: Logo,
    earlier: Seq<Logo>,
    later: Seq<Logo>,
)
    ensures
        logos_inside(body, seq![]) == body,
        logos_inside(body, seq![logo]) == replaced(
            body,
            logo.address@,
            "data:"@ + logo.kind@ + ";base64,"@ + base64_text(logo.bytes@),
        ),
        logos_inside(body, earlier + later) == logos_inside(logos_inside(body, earlier), later),
    decreases later.len(),
{
    assert(seq![logo].drop_last() =~= Seq::<Logo>::empty());
    assert(logos_inside(body, seq![logo].drop_last()) == body);
    assert(seq![logo].last() == logo);
    if later.len() == 0 {
        assert(earlier + later =~= earlier);
    } else {
        law_logos_go_in_one_after_another(body, logo, earlier, later.drop_last());
        assert((earlier + later).drop_last() =~= earlier + later.drop_last());
        assert((earlier + later).last() == later.last());
    }
}

/// The head of the file: the head of the layout titled, with the fonts and
/// the styles inside it.
pub open spec fn document_head(assets: Assets) -> Seq<char> {
    replaced(
        fonts_inside(
            replaced(before_first(assets.layout@, HEAD_END@), assets.title_placeholder@, TITLE@),
            assets.fonts@,
            assets.font_content_type@,
        ),
        TAILWIND_TAG@,
        "<script>"@ + assets.tailwind@ + "</script>"@,
    )
}

/// The whole document around `body`.
pub open spec fn document_text(body: Seq<char>, assets: Assets, logos: Seq<Logo>) -> Seq<char> {
    document_head(assets) + HEAD_END@ + "<body class=\""@ + BODY_CLASSES@ + "\"><main class=\""@
        + MAIN_CLASSES@ + "\">"@ + logos_inside(
        sprites_inside(body, assets.sprites@, assets.sprite_path@, assets.sprite_content_type@),
        logos,
    ) + "</main><script>"@ + assets.table_sort@ + "</script></body></html>"@
}

/// What stands in `text` before the first `pattern`, which it holds.
pub fn text_before(text: &str, pattern: &str) -> (before: String)
    requires
        contains(text@, pattern@),
    ensures
        before@ == before_first(text@, pattern@),
{
    let t = chars_of(text);
    let p = chars_of(pattern);
    let mut i: usize = 0;
    let n = t.len();
    assert(t@.skip(0) =~= t@);
    let ghost at = choose|at: int| occurs_at(t@, p@, at);
    while !matches_at(&t, &p, i)
        invariant
            n == t@.len(),
            i <= at,
            occurs_at(t@, p@, at),
            before_first(t@, p@) == t@.take(i as int) + before_first(t@.skip(i as int), p@),
        decreases at - i,
    {
        let ghost rest = t@.skip(i as int);
        assert(rest.subrange(0, p@.len() as int) =~= t@.subrange(i as int, i + p@.len()));
        assert(rest.drop_first() =~= t@.skip(i + 1));
        assert(t@.take(i + 1) =~= t@.take(i as int) + seq![rest[0]]);
        i = i + 1;
    }
    let ghost rest = t@.skip(i as int);
    assert(rest.subrange(0, p@.len() as int) =~= t@.subrange(i as int, i + p@.len()));
    assert(before_first(rest, p@) == Seq::<char>::empty());
    let mut before = String::new();
    let mut j: usize = 0;
    while j < i
        invariant
            j <= i,
            i + p@.len() <= t@.len(),
            before@ == t@.take(j as int),
        decreases i - j,
    {
        push_char(&mut before, t[j]);
        assert(t@.take(j + 1) =~= t@.take(j as int).push(t@[j as int]));
        j = j + 1;
    }
    assert(t@.take(i as int) + Seq::<char>::empty() =~= t@.take(i as int));
    before
}

/// The whole document around `body`: the head of the layout with the styles
/// and the fonts inside it in place of their addresses, the sprite sheets and
/// the logos inside the body in place of theirs, and the script sorting the
/// tables, so nothing is fetched from the server.
pub fn document(body: &str, assets: &Assets, logos: &[Logo]) -> (document: String)
    requires
        contains(assets.layout@, HEAD_END@),
    ensures
        document@ == document_text(body@, *assets, logos@),
{
    let head = text_before(assets.layout.as_str(), HEAD_END);
    let mut head = replace(head.as_str(), assets.title_placeholder.as_str(), TITLE);
    let ghost titled_head = head@;
    let mut i: usize = 0;
    assert(assets.fonts@.take(0) =~= Seq::<Asset>::empty());
    while i < assets.fonts.len()
        invariant
            i <= assets.fonts@.len(),
            head@ == fonts_inside(titled_head, assets.fonts@.take(i as int), assets.font_content_type@),
        decreases assets.fonts@.len() - i,
    {
        let font = &assets.fonts[i];
        let mut address = FONT_ADDRESS_PREFIX.to_owned();
        address.append(font.name.as_str());
        let uri = data_uri(assets.font_content_type.as_str(), font.bytes.as_slice());
        head = replace(head.as_str(), address.as_str(), uri.as_str());
        assert(assets.fonts@.take(i + 1).drop_last() =~= assets.fonts@.take(i as int));
        i = i + 1;
    }
    assert(assets.fonts@.take(i as int) =~= assets.fonts@);
    let mut script = "<script>".to_owned();
    script.append(assets.tailwind.as_str());
    script.append("</script>");
    let head = replace(head.as_str(), TAILWIND_TAG, script.as_str());

    let mut body = body.to_owned();
    let ghost given = body@;
    let mut i: usize = 0;
    assert(assets.sprites@.take(0) =~= Seq::<Asset>::empty());
    while i < assets.sprites.len()
        invariant
            i <= assets.sprites@.len(),
            body@ == sprites_inside(
                given,
                assets.sprites@.take(i as int),
                assets.sprite_path@,
                assets.sprite_content_type@,
            ),
        decreases assets.sprites@.len() - i,
    {
        let sprite = &assets.sprites[i];
        let mut address = assets.sprite_path.clone();
        address.append(sprite.name.as_str());
        let uri = data_uri(assets.sprite_content_type.as_str(), sprite.bytes.as_slice());
        body = replace(body.as_str(), address.as_str(), uri.as_str());
        assert(assets.sprites@.take(i + 1).drop_last() =~= assets.sprites@.take(i as int));
        i = i + 1;
    }
    assert(assets.sprites@.take(i as int) =~= assets.sprites@);
    let ghost sheets = body@;
    let mut i: usize = 0;
    assert(logos@.take(0) =~= Seq::<Logo>::empty());
    while i < logos.len()
        invariant
            i <= logos@.len(),
            body@ == logos_inside(sheets, logos@.take(i as int)),
        decreases logos@.len() - i,
    {
        let logo = &logos[i];
        let uri = data_uri(logo.kind.as_str(), logo.bytes.as_slice());
        body = replace(body.as_str(), logo.address.as_str(), uri.as_str());
        assert(logos@.take(i + 1).drop_last() =~= logos@.take(i as int));
        i = i + 1;
    }
    assert(logos@.take(i as int) =~= logos@);

    let mut document = head;
    document.append(HEAD_END);
    document.append("<body class=\"");
    document.append(BODY_CLASSES);
    document.append("\"><main class=\"");
    document.append(MAIN_CLASSES);
    document.append("\">");
    document.append(body.as_str());
    document.append("</main><script>");
    document.append(assets.table_sort.as_str());
    document.append("</script></body></html>");
    document
}

/// One request the proxy of a run logged: the second it was answered, the
/// tokens it moved, and whether it was a push to the git host, which is what
/// puts an attempt on the wall clock.
#[derive(Clone, Copy)]
pub struct Request {
    pub seconds: u64,
    pub tokens: u64,
    pub push: bool,
}

/// The seconds of the pushes among `requests`, in order.
pub open spec fn push_seconds(requests: Seq<Request>) -> Seq<u64>
    decreases requests.len(),
{
    if requests.len() == 0 {
        seq![]
    } else if requests.last().push {
        push_seconds(requests.drop_last()).push(requests.last().seconds)
    } else {
        push_seconds(requests.drop_last())
    }
}

/// The tokens of the requests of `requests` other than pushes answered by
/// the second `wall`.
pub open spec fn tokens_by(requests: Seq<Request>, wall: int) -> nat
    decreases requests.len(),
{
    if requests.len() == 0 {
        0
    } else {
        tokens_by(requests.drop_last(), wall) + if !requests.last().push
            && requests.last().seconds <= wall {
            requests.last().tokens as nat
        } else {
            0
        }
    }
}

/// The second of the wall clock the attempt at `index`, `seconds` into the
/// scoring clock of a run started at `started` with `attempts` attempts, is
/// put at: the push that made it when every attempt has its push among
/// `requests`, else the start of the run and its seconds.
pub open spec fn attempt_wall(
    requests: Seq<Request>,
    started: u64,
    attempts: nat,
    index: nat,
    seconds: u64,
) -> int {
    if push_seconds(requests).len() == attempts {
        push_seconds(requests)[index as int] as int
    } else {
        started + seconds
    }
}

/// The tokens of `requests` up to that attempt, nothing without a request.
pub open spec fn tokens_until_spec(
    requests: Seq<Request>,
    started: u64,
    attempts: nat,
    index: nat,
    seconds: u64,
) -> Option<nat> {
    if requests.len() == 0 {
        None
    } else {
        Some(tokens_by(requests, attempt_wall(requests, started, attempts, index, seconds)))
    }
}

/// The tokens of `requests` up to the attempt at `index` with `seconds` on
/// the scoring clock, of the run started at the second `started` with
/// `attempts` attempts: put on the wall clock by the push that made it when
/// every attempt has its push in the log, else by the start of the run.
pub fn tokens_until(
    requests: &[Request],
    started: u64,
    attempts: usize,
    index: usize,
    seconds: u64,
) -> (tokens: Option<u64>)
    requires
        requests@.len() > 0 && push_seconds(requests@).len() == attempts ==> index < attempts,
        requests@.len() > 0 && push_seconds(requests@).len() != attempts ==> started + seconds
            <= u64::MAX,
        tokens_until_spec(requests@, started, attempts as nat, index as nat, seconds) matches Some(
            total,
        ) ==> total <= u64::MAX,
    ensures
        match tokens {
            Some(t) => tokens_until_spec(requests@, started, attempts as nat, index as nat, seconds)
                == Some(t as nat),
            None => tokens_until_spec(
                requests@,
                started,
                attempts as nat,
                index as nat,
                seconds,
            ) is None,
        },
{
    let mut pushes: Vec<u64> = Vec::new();
    let mut i: usize = 0;
    assert(requests@.take(0) =~= Seq::<Request>::empty());
    while i < requests.len()
        invariant
            i <= requests@.len(),
            pushes@ == push_seconds(requests@.take(i as int)),
        decreases requests@.len() - i,
    {
        if requests[i].push {
            pushes.push(requests[i].seconds);
        }
        assert(requests@.take(i + 1).drop_last() =~= requests@.take(i as int));
        i = i + 1;
    }
    assert(requests@.take(i as int) =~= requests@);
    if requests.len() == 0 {
        return None;
    }
    let wall = if pushes.len() == attempts {
        pushes[index]
    } else {
        started + seconds
    };
    let ghost total = tokens_by(requests@, wall as int);
    let mut sum: u64 = 0;
    let mut j: usize = 0;
    assert(requests@.take(0) =~= Seq::<Request>::empty());
    while j < requests.len()
        invariant
            j <= requests@.len(),
            total == tokens_by(requests@, wall as int),
            total <= u64::MAX,
            sum == tokens_by(requests@.take(j as int), wall as int),
            sum <= total,
        decreases requests@.len() - j,
    {
        proof {
            lemma_tokens_by_grow(requests@, j as int, wall as int);
        }
        let request = requests[j];
        assert(requests@.take(j + 1).drop_last() =~= requests@.take(j as int));
        assert(requests@.take(j + 1).last() == request);
        if !request.push && request.seconds <= wall {
            sum = sum + request.tokens;
        }
        j = j + 1;
    }
    assert(requests@.take(j as int) =~= requests@);
    Some(sum)
}

/// The tokens of a longer prefix of the requests are no fewer.
proof fn lemma_tokens_by_grow(requests: Seq<Request>, j: int, wall: int)
    requires
        0 <= j < requests.len(),
    ensures
        tokens_by(requests.take(j + 1), wall) <= tokens_by(requests, wall),
    decreases requests.len() - j,
{
    if j + 1 < requests.len() {
        lemma_tokens_by_grow(requests, j + 1, wall);
        assert(requests.take(j + 2).drop_last() =~= requests.take(j + 1));
    } else {
        assert(requests.take(j + 1) =~= requests);
    }
}

/// `name` at the thinking level `thinking`, which is what models and
/// harnesses are told apart by: one model at two levels is two of them.
pub open spec fn leveled_text(name: Seq<char>, thinking: Option<Seq<char>>) -> Seq<char> {
    match thinking {
        Some(level) => if level.len() > 0 {
            name + seq![' '] + level
        } else {
            name
        },
        None => name,
    }
}

/// `name` at the thinking level `thinking`, if it was asked for one.
pub fn leveled(name: &str, thinking: Option<&str>) -> (key: String)
    ensures
        key@ == leveled_text(
            name@,
            match thinking {
                Some(level) => Some(level@),
                None => None,
            },
        ),
{
    let mut key = name.to_owned();
    match thinking {
        Some(level) => {
            if !level.is_empty() {
                push_char(&mut key, ' ');
                key.append(level);
            }
        },
        None => {},
    }
    key
}

/// A place found among names is one of theirs.
proof fn lemma_position_in_range(names: Seq<String>, name: Seq<char>)
    ensures
        position_of(names, name) matches Some(p) ==> p < names.len(),
    decreases names.len(),
{
    if names.len() > 0 {
        lemma_position_in_range(names.drop_first(), name);
    }
}

/// Every harness gets a hue on the wheel, whether it is among the harnesses or not.
pub proof fn law_harness_hues_stay_on_the_wheel(harnesses: Seq<String>, harness: Seq<char>)
    ensures
        harness_hue_of(harnesses, harness) < HUES,
{
    lemma_position_in_range(harnesses, harness);
    let position: nat = match position_of(harnesses, harness) {
        Some(p) => p,
        None => 0,
    };
    let count: nat = if harnesses.len() > 0 {
        harnesses.len()
    } else {
        1
    };
    assert(position < count);
    assert(position * 360 / count < 360) by (nonlinear_arith)
        requires
            position < count,
    ;
}

} // verus!
