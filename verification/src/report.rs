//! Rendering of an [`Analysis`] plus its [`Suggestion`]s as text or as a
//! self-contained HTML page. The ratios in a report (speedups and
//! parallelizability) arrive already rendered as decimal strings.

use vstd::prelude::*;

use crate::fmt::{decimal, pad_left, push_decimal, push_decimal_padded};
use crate::model::{Analysis, Hotspot};
use crate::rules::Suggestion;
use crate::text::{contains_run, lemma_contains_middle, push_char};

verus! {

/// The rendered ratios of one suggestion.
#[derive(Debug)]
pub struct SuggestionFigures {
    /// Projected speedup, two decimals.
    pub projected_speedup: String,
    /// Projected speedup minus the current one, two decimals.
    pub speedup_gain: String,
    /// Projected parallelizability in percent, no decimals.
    pub parallel_pct: String,
}

/// The rendered ratios of a report.
#[derive(Debug)]
pub struct ReportFigures {
    /// Parallelizability in percent, one decimal.
    pub parallelizability_pct: String,
    /// Estimated speedup, two decimals.
    pub speedup: String,
    /// One entry per suggestion, in order.
    pub suggestions: Vec<SuggestionFigures>,
}

/// The note printed under every report.
pub open spec fn model_note() -> Seq<char> {
    "Estimates from Movespan's Block-STM contention model. Exact for ranking hotspots and for the direction and magnitude of a fix; not validator-exact throughput. Aggregators and Aptos framework state (gas payment, sequence numbers, fungible stores) are excluded: the VM special-cases them and a contract author cannot refactor them."@
}

/// The note printed under every report.
pub fn model_note_str() -> (r: &'static str)
    ensures
        r@ == model_note(),
{
    "Estimates from Movespan's Block-STM contention model. Exact for ranking hotspots and for the direction and magnitude of a fix; not validator-exact throughput. Aggregators and Aptos framework state (gas payment, sequence numbers, fungible stores) are excluded: the VM special-cases them and a contract author cannot refactor them."
}

/// The text a contention-free workload shows in place of hotspots.
pub open spec fn no_hotspots_text() -> Seq<char> {
    "None — the workload is already contention-free."@
}

// ---------------------------------------------------------------------------
// HTML escaping
// ---------------------------------------------------------------------------

/// The HTML form of one character.
pub open spec fn escape_char(c: char) -> Seq<char> {
    if c == '&' {
        "&amp;"@
    } else if c == '<' {
        "&lt;"@
    } else if c == '>' {
        "&gt;"@
    } else if c == '"' {
        "&quot;"@
    } else if c == '\'' {
        "&#39;"@
    } else {
        seq![c]
    }
}

/// `s` with the HTML special characters replaced by entities.
pub open spec fn escaped(s: Seq<char>) -> Seq<char>
    decreases s.len(),
{
    if s.len() == 0 {
        Seq::empty()
    } else {
        escaped(s.drop_last()) + escape_char(s.last())
    }
}

/// Escape `input` for inclusion in HTML text or attribute values.
pub fn escape(input: &str) -> (r: String)
    ensures
        r@ == escaped(input@),
{
    let mut out = String::new();
    for c in it: input.chars()
        invariant
            it.seq() == input@,
            out@ == escaped(it.seq().take(it.index())),
    {
        let ghost k = it.index();
        proof {
            assert(it.seq().take(k + 1).drop_last() =~= it.seq().take(k));
        }
        match c {
            '&' => out.append("&amp;"),
            '<' => out.append("&lt;"),
            '>' => out.append("&gt;"),
            '"' => out.append("&quot;"),
            '\'' => out.append("&#39;"),
            _ => {
                push_char(&mut out, c);
                proof {
                    assert(out@ =~= escaped(it.seq().take(k)) + seq![c]);
                }
            },
        }
    }
    proof {
        assert(input@.take(input@.len() as int) =~= input@);
    }
    out
}

/// A character that escaping never lets through.
pub open spec fn markup_char(c: char) -> bool {
    c == '<' || c == '>' || c == '"' || c == '\''
}

/// Escaped text holds no markup characters, and text without special
/// characters passes through unchanged.
pub proof fn law_escape_removes_markup(s: Seq<char>)
    ensures
        forall|i: int| 0 <= i < escaped(s).len() ==> !markup_char(#[trigger] escaped(s)[i]),
        (forall|i: int| 0 <= i < s.len() ==> !markup_char(#[trigger] s[i]) && s[i] != '&')
            ==> escaped(s) == s,
    decreases s.len(),
{
    reveal_strlit("&amp;");
    reveal_strlit("&lt;");
    reveal_strlit("&gt;");
    reveal_strlit("&quot;");
    reveal_strlit("&#39;");
    if s.len() > 0 {
        law_escape_removes_markup(s.drop_last());
        let e = escape_char(s.last());
        assert forall|i: int| 0 <= i < e.len() implies !markup_char(#[trigger] e[i]) by {}
        let p = escaped(s.drop_last());
        assert forall|i: int| 0 <= i < escaped(s).len() implies !markup_char(#[trigger] escaped(s)[i]) by {
            if i < p.len() {
                assert(escaped(s)[i] == p[i]);
            } else {
                assert(escaped(s)[i] == e[i - p.len()]);
            }
        }
        if forall|i: int| 0 <= i < s.len() ==> !markup_char(#[trigger] s[i]) && s[i] != '&' {
            assert forall|i: int| 0 <= i < s.drop_last().len() implies !markup_char(
                #[trigger] s.drop_last()[i],
            ) && s.drop_last()[i] != '&' by {
                assert(s.drop_last()[i] == s[i]);
            }
            assert(s[s.len() - 1] == s.last());
            assert(escaped(s) =~= s);
        }
    } else {
        assert(escaped(s) =~= s);
    }
}

/// The text that `s` decodes to, read left to right: each of the entities
/// `&amp;`, `&lt;`, `&gt;`, `&quot;` and `&#39;` becomes its character, and
/// every other character stays.
pub open spec fn unescaped(s: Seq<char>) -> Seq<char>
    decreases s.len(),
{
    if s.len() == 0 {
        Seq::empty()
    } else if s.len() >= 5 && s.take(5) == "&amp;"@ {
        seq!['&'] + unescaped(s.skip(5))
    } else if s.len() >= 4 && s.take(4) == "&lt;"@ {
        seq!['<'] + unescaped(s.skip(4))
    } else if s.len() >= 4 && s.take(4) == "&gt;"@ {
        seq!['>'] + unescaped(s.skip(4))
    } else if s.len() >= 6 && s.take(6) == "&quot;"@ {
        seq!['"'] + unescaped(s.skip(6))
    } else if s.len() >= 5 && s.take(5) == "&#39;"@ {
        seq!['\''] + unescaped(s.skip(5))
    } else {
        seq![s[0]] + unescaped(s.skip(1))
    }
}

/// A character that escaping replaces.
pub open spec fn special_char(c: char) -> bool {
    markup_char(c) || c == '&'
}

proof fn lemma_escaped_concat(a: Seq<char>, b: Seq<char>)
    ensures
        escaped(a + b) == escaped(a) + escaped(b),
    decreases b.len(),
{
    if b.len() == 0 {
        assert(a + b =~= a);
        assert(escaped(a) + escaped(b) =~= escaped(a));
    } else {
        lemma_escaped_concat(a, b.drop_last());
        assert((a + b).drop_last() =~= a + b.drop_last());
        assert((a + b).last() == b.last());
        assert(escaped(a) + escaped(b) =~= escaped(a) + escaped(b.drop_last()) + escape_char(
            b.last(),
        ));
    }
}

proof fn lemma_unescape_char(c: char, t: Seq<char>)
    ensures
        unescaped(escape_char(c) + t) == seq![c] + unescaped(t),
{
    reveal_strlit("&amp;");
    reveal_strlit("&lt;");
    reveal_strlit("&gt;");
    reveal_strlit("&quot;");
    reveal_strlit("&#39;");
    let s = escape_char(c) + t;
    let k = escape_char(c).len() as int;
    assert(s.skip(k) =~= t);
    assert(s.take(k) =~= escape_char(c));
    if s.len() >= 5 {
        assert(s.take(5)[0] == s[0]);
        assert(s.take(5)[1] == s[1]);
    }
    if s.len() >= 4 {
        assert(s.take(4)[0] == s[0]);
        assert(s.take(4)[1] == s[1]);
    }
    if s.len() >= 6 {
        assert(s.take(6)[0] == s[0]);
        assert(s.take(6)[1] == s[1]);
    }
    assert("&amp;"@[1] == 'a');
    assert("&lt;"@[1] == 'l');
    assert("&gt;"@[1] == 'g');
    assert("&quot;"@[1] == 'q');
    assert("&#39;"@[1] == '#');
}

proof fn lemma_escaped_len(s: Seq<char>)
    ensures
        escaped(s).len() >= s.len(),
        (exists|i: int| 0 <= i < s.len() && special_char(#[trigger] s[i])) ==> escaped(s).len()
            > s.len(),
    decreases s.len(),
{
    reveal_strlit("&amp;");
    reveal_strlit("&lt;");
    reveal_strlit("&gt;");
    reveal_strlit("&quot;");
    reveal_strlit("&#39;");
    if s.len() > 0 {
        let p = s.drop_last();
        lemma_escaped_len(p);
        if exists|i: int| 0 <= i < s.len() && special_char(#[trigger] s[i]) {
            let i = choose|i: int| 0 <= i < s.len() && special_char(#[trigger] s[i]);
            if i < s.len() - 1 {
                assert(special_char(p[i]));
            }
        }
    }
}

/// Escaping loses nothing: decoding the escaped text gives back the input,
/// and escaping changes the text exactly when it holds a special character.
pub proof fn law_escape_round_trip(s: Seq<char>)
    ensures
        unescaped(escaped(s)) == s,
        escaped(s) == s <==> forall|i: int| 0 <= i < s.len() ==> !special_char(#[trigger] s[i]),
    decreases s.len(),
{
    lemma_escaped_len(s);
    law_escape_removes_markup(s);
    if s.len() > 0 {
        let rest = s.skip(1);
        law_escape_round_trip(rest);
        assert(s =~= seq![s[0]] + rest);
        lemma_escaped_concat(seq![s[0]], rest);
        let one = seq![s[0]];
        assert(one.drop_last() =~= Seq::<char>::empty());
        assert(escaped(one.drop_last()) == Seq::<char>::empty());
        assert(one.last() == s[0]);
        assert(escaped(one) == escaped(one.drop_last()) + escape_char(one.last()));
        assert(escaped(one) =~= escape_char(s[0]));
        lemma_unescape_char(s[0], escaped(rest));
    } else {
        assert(unescaped(escaped(s)) =~= s);
    }
}

// ---------------------------------------------------------------------------
// Text report
// ---------------------------------------------------------------------------

/// Number of hotspots a report lists.
pub open spec fn listed(hs: Seq<Hotspot>) -> int {
    if hs.len() < 10 {
        hs.len() as int
    } else {
        10
    }
}

/// The headline numbers of the text report.
pub open spec fn text_summary(a: Analysis, f: ReportFigures) -> Seq<char> {
    "MOVESPAN CONTENTION REPORT\n==========================\n\nTransactions       : "@ + decimal(
        a.txn_count as nat,
    ) + "\nThreads modeled    : "@ + decimal(a.threads as nat) + "\nParallelizability  : "@
        + f.parallelizability_pct@ + "%\nEstimated speedup  : "@ + f.speedup@ + "x of "@ + decimal(
        a.threads as nat,
    ) + "x ideal\nWork / span        : "@ + decimal(a.total_work as nat) + " / "@ + decimal(
        a.span as nat,
    ) + "\nConflict edges     : "@ + decimal(a.conflict_edges as nat) + "\n\n"@
}

/// The line of the hotspot ranked `i` (from 0).
pub open spec fn hotspot_text_line(i: nat, h: Hotspot) -> Seq<char> {
    pad_left(decimal(i + 1), 2) + ". "@ + h.label@ + "  ("@ + decimal(h.edges_caused as nat)
        + " deps, blocked cost "@ + decimal(h.blocked_cost as nat) + ")\n"@
}

/// The lines of the hotspots `hs`.
pub open spec fn hotspot_text_lines(hs: Seq<Hotspot>) -> Seq<char>
    decreases hs.len(),
{
    if hs.len() == 0 {
        Seq::empty()
    } else {
        hotspot_text_lines(hs.drop_last()) + hotspot_text_line(
            (hs.len() - 1) as nat,
            hs.last(),
        )
    }
}

/// The hotspot section of the text report: the first ten hotspots.
pub open spec fn text_hotspots(hs: Seq<Hotspot>) -> Seq<char> {
    "TOP CONTENTION HOTSPOTS\n-----------------------\n"@ + if hs.len() == 0 {
        no_hotspots_text() + "\n"@
    } else {
        hotspot_text_lines(hs.take(listed(hs)))
    } + "\n"@
}

/// The block of the suggestion numbered `i` (from 0).
pub open spec fn suggestion_text_block(
    i: nat,
    s: Suggestion,
    g: SuggestionFigures,
    speedup: Seq<char>,
) -> Seq<char> {
    "\n["@ + decimal(i + 1) + "] "@ + s.target@ + "\n    problem: "@ + s.problem@
        + "\n    fix    : "@ + s.fix@ + "\n    impact : "@ + speedup + "x -> "@
        + g.projected_speedup@ + "x  (+"@ + g.speedup_gain@ + "x, "@ + g.parallel_pct@
        + "% parallel)\n"@
}

/// The blocks of the first `k` suggestions.
pub open spec fn suggestion_text_blocks(
    ss: Seq<Suggestion>,
    gs: Seq<SuggestionFigures>,
    speedup: Seq<char>,
    k: int,
) -> Seq<char>
    decreases k,
{
    if k <= 0 {
        Seq::empty()
    } else {
        suggestion_text_blocks(ss, gs, speedup, k - 1) + suggestion_text_block(
            (k - 1) as nat,
            ss[k - 1],
            gs[k - 1],
            speedup,
        )
    }
}

/// The recommendation section of the text report, empty without suggestions.
pub open spec fn text_recommendations(
    ss: Seq<Suggestion>,
    gs: Seq<SuggestionFigures>,
    speedup: Seq<char>,
) -> Seq<char> {
    if ss.len() == 0 {
        Seq::empty()
    } else {
        "RECOMMENDATIONS\n---------------\n"@ + suggestion_text_blocks(
            ss,
            gs,
            speedup,
            ss.len() as int,
        ) + "\n"@
    }
}

/// The whole text report.
pub open spec fn text_report(a: Analysis, ss: Seq<Suggestion>, f: ReportFigures) -> Seq<char> {
    text_summary(a, f) + text_hotspots(a.hotspots@) + text_recommendations(
        ss,
        f.suggestions@,
        f.speedup@,
    ) + model_note() + "\n"@
}

fn push_text_summary(out: &mut String, a: &Analysis, f: &ReportFigures)
    ensures
        final(out)@ == old(out)@ + text_summary(*a, *f),
{
    out.append("MOVESPAN CONTENTION REPORT\n==========================\n\nTransactions       : ");
    push_decimal(out, a.txn_count as u64);
    out.append("\nThreads modeled    : ");
    push_decimal(out, a.threads as u64);
    out.append("\nParallelizability  : ");
    out.append(f.parallelizability_pct.as_str());
    out.append("%\nEstimated speedup  : ");
    out.append(f.speedup.as_str());
    out.append("x of ");
    push_decimal(out, a.threads as u64);
    out.append("x ideal\nWork / span        : ");
    push_decimal(out, a.total_work);
    out.append(" / ");
    push_decimal(out, a.span);
    out.append("\nConflict edges     : ");
    push_decimal(out, a.conflict_edges as u64);
    out.append("\n\n");
    proof {
        assert(out@ =~= old(out)@ + text_summary(*a, *f));
    }
}

fn push_hotspot_text_line(out: &mut String, i: usize, h: &Hotspot)
    requires
        i < 10,
    ensures
        final(out)@ == old(out)@ + hotspot_text_line(i as nat, *h),
{
    push_decimal_padded(out, (i + 1) as u64, 2);
    out.append(". ");
    out.append(h.label.as_str());
    out.append("  (");
    push_decimal(out, h.edges_caused as u64);
    out.append(" deps, blocked cost ");
    push_decimal(out, h.blocked_cost);
    out.append(")\n");
    proof {
        assert(out@ =~= old(out)@ + hotspot_text_line(i as nat, *h));
    }
}

fn push_text_hotspots(out: &mut String, hs: &Vec<Hotspot>)
    ensures
        final(out)@ == old(out)@ + text_hotspots(hs@),
{
    out.append("TOP CONTENTION HOTSPOTS\n-----------------------\n");
    let ghost head = out@;
    if hs.len() == 0 {
        out.append("None — the workload is already contention-free.");
        out.append("\n");
    } else {
        let count = if hs.len() < 10 {
            hs.len()
        } else {
            10
        };
        for i in 0..count
            invariant
                count == listed(hs@),
                count <= hs@.len(),
                count <= 10,
                out@ == head + hotspot_text_lines(hs@.take(i as int)),
        {
            push_hotspot_text_line(out, i, &hs[i]);
            proof {
                assert(hs@.take(i + 1).drop_last() =~= hs@.take(i as int));
                assert(out@ =~= head + hotspot_text_lines(hs@.take(i + 1)));
            }
        }
    }
    out.append("\n");
    proof {
        assert(out@ =~= old(out)@ + text_hotspots(hs@));
    }
}

fn push_suggestion_text_block(
    out: &mut String,
    i: usize,
    s: &Suggestion,
    g: &SuggestionFigures,
    speedup: &String,
)
    requires
        i < usize::MAX,
    ensures
        final(out)@ == old(out)@ + suggestion_text_block(i as nat, *s, *g, speedup@),
{
    out.append("\n[");
    push_decimal(out, (i + 1) as u64);
    out.append("] ");
    out.append(s.target.as_str());
    out.append("\n    problem: ");
    out.append(s.problem.as_str());
    out.append("\n    fix    : ");
    out.append(s.fix.as_str());
    out.append("\n    impact : ");
    out.append(speedup.as_str());
    out.append("x -> ");
    out.append(g.projected_speedup.as_str());
    out.append("x  (+");
    out.append(g.speedup_gain.as_str());
    out.append("x, ");
    out.append(g.parallel_pct.as_str());
    out.append("% parallel)\n");
    proof {
        assert(out@ =~= old(out)@ + suggestion_text_block(i as nat, *s, *g, speedup@));
    }
}

fn push_text_recommendations(
    out: &mut String,
    ss: &[Suggestion],
    gs: &Vec<SuggestionFigures>,
    speedup: &String,
)
    requires
        gs@.len() == ss@.len(),
    ensures
        final(out)@ == old(out)@ + text_recommendations(ss@, gs@, speedup@),
{
    if ss.len() == 0 {
        proof {
            assert(out@ =~= old(out)@ + text_recommendations(ss@, gs@, speedup@));
        }
        return;
    }
    out.append("RECOMMENDATIONS\n---------------\n");
    let ghost head = out@;
    for i in 0..ss.len()
        invariant
            gs@.len() == ss@.len(),
            out@ == head + suggestion_text_blocks(ss@, gs@, speedup@, i as int),
    {
        push_suggestion_text_block(out, i, &ss[i], &gs[i], speedup);
        proof {
            assert(out@ =~= head + suggestion_text_blocks(ss@, gs@, speedup@, i + 1));
        }
    }
    out.append("\n");
    proof {
        assert(out@ =~= old(out)@ + text_recommendations(ss@, gs@, speedup@));
    }
}

/// Human-readable terminal report.
pub fn to_text(analysis: &Analysis, suggestions: &[Suggestion], figures: &ReportFigures) -> (r:
    String)
    requires
        figures.suggestions@.len() == suggestions@.len(),
    ensures
        r@ == text_report(*analysis, suggestions@, *figures),
{
    let mut out = String::new();
    push_text_summary(&mut out, analysis, figures);
    push_text_hotspots(&mut out, &analysis.hotspots);
    push_text_recommendations(&mut out, suggestions, &figures.suggestions, &figures.speedup);
    out.append(model_note_str());
    out.append("\n");
    proof {
        assert(out@ =~= text_report(*analysis, suggestions@, *figures));
    }
    out
}

// ---------------------------------------------------------------------------
// HTML report
// ---------------------------------------------------------------------------

/// The row of one hotspot.
pub open spec fn hotspot_html_row(h: Hotspot) -> Seq<char> {
    "<tr><td>"@ + escaped(h.label@) + "</td><td>"@ + decimal(h.edges_caused as nat) + "</td><td>"@
        + decimal(h.blocked_cost as nat) + "</td></tr>"@
}

/// The rows of the hotspots `hs`.
pub open spec fn hotspot_html_rows(hs: Seq<Hotspot>) -> Seq<char>
    decreases hs.len(),
{
    if hs.len() == 0 {
        Seq::empty()
    } else {
        hotspot_html_rows(hs.drop_last()) + hotspot_html_row(hs.last())
    }
}

/// The hotspot table body: the first ten hotspots, or a note that there are
/// none.
pub open spec fn html_hotspots(hs: Seq<Hotspot>) -> Seq<char> {
    if hs.len() == 0 {
        "<tr><td colspan=\"3\">"@ + no_hotspots_text() + "</td></tr>"@
    } else {
        hotspot_html_rows(hs.take(listed(hs)))
    }
}

/// The card of one suggestion.
pub open spec fn suggestion_html(s: Suggestion, g: SuggestionFigures, speedup: Seq<char>) -> Seq<
    char,
> {
    "<div class=\"rec\"><h3>"@ + escaped(s.target@) + "</h3><p><b>Problem:</b> "@ + escaped(
        s.problem@,
    ) + "</p><p><b>Fix:</b> "@ + escaped(s.fix@) + "</p><p><b>Impact:</b> "@ + escaped(speedup)
        + "x &rarr; "@ + escaped(g.projected_speedup@) + "x (+"@ + escaped(g.speedup_gain@)
        + "x)</p></div>"@
}

/// The cards of the first `k` suggestions.
pub open spec fn suggestions_html(
    ss: Seq<Suggestion>,
    gs: Seq<SuggestionFigures>,
    speedup: Seq<char>,
    k: int,
) -> Seq<char>
    decreases k,
{
    if k <= 0 {
        Seq::empty()
    } else {
        suggestions_html(ss, gs, speedup, k - 1) + suggestion_html(ss[k - 1], gs[k - 1], speedup)
    }
}

/// Everything of the page before the first figure.
pub open spec fn html_head() -> Seq<char> {
    "<!doctype html><html lang=\"en\"><head><meta charset=\"utf-8\"><meta name=\"viewport\" content=\"width=device-width,initial-scale=1\"><title>Movespan Contention Report</title><style>body{font:15px/1.5 system-ui,sans-serif;max-width:820px;margin:2rem auto;padding:0 1rem;color:#111}h1{margin-bottom:.25rem}table{border-collapse:collapse;width:100%;margin:1rem 0}td,th{border:1px solid #ddd;padding:.5rem;text-align:left}th{background:#f5f5f5}.rec{border-left:3px solid #333;padding:.25rem 1rem;margin:1rem 0;background:#fafafa}.note{color:#666;font-size:.85rem;margin-top:2rem}</style></head><body><h1>Movespan Contention Report</h1><p>Parallelizability <b>"@
}

/// The whole HTML page.
pub open spec fn html_report(a: Analysis, ss: Seq<Suggestion>, f: ReportFigures) -> Seq<char> {
    html_head() + escaped(f.parallelizability_pct@) + "%</b> &middot; estimated speedup <b>"@
        + escaped(f.speedup@) + "x</b> of "@ + decimal(a.threads as nat) + "x ideal &middot; "@ + decimal(
        a.txn_count as nat,
    ) + " transactions &middot; "@ + decimal(a.conflict_edges as nat)
        + " conflict edges</p><h2>Hotspots</h2><table><tr><th>Location</th><th>Deps</th><th>Blocked cost</th></tr>"@
        + html_hotspots(a.hotspots@) + "</table><h2>Recommendations</h2>"@ + suggestions_html(
        ss,
        f.suggestions@,
        f.speedup@,
        ss.len() as int,
    ) + "<p class=\"note\">"@ + escaped(model_note()) + "</p></body></html>"@
}

fn push_escaped(out: &mut String, s: &str)
    ensures
        final(out)@ == old(out)@ + escaped(s@),
{
    let e = escape(s);
    out.append(e.as_str());
}

fn push_html_hotspots(out: &mut String, hs: &Vec<Hotspot>)
    ensures
        final(out)@ == old(out)@ + html_hotspots(hs@),
{
    if hs.len() == 0 {
        out.append("<tr><td colspan=\"3\">");
        out.append("None — the workload is already contention-free.");
        out.append("</td></tr>");
        proof {
            assert(out@ =~= old(out)@ + html_hotspots(hs@));
        }
        return;
    }
    let ghost head = out@;
    let count = if hs.len() < 10 {
        hs.len()
    } else {
        10
    };
    for i in 0..count
        invariant
            count == listed(hs@),
            count <= hs@.len(),
            out@ == head + hotspot_html_rows(hs@.take(i as int)),
    {
        let h = &hs[i];
        out.append("<tr><td>");
        push_escaped(out, h.label.as_str());
        out.append("</td><td>");
        push_decimal(out, h.edges_caused as u64);
        out.append("</td><td>");
        push_decimal(out, h.blocked_cost);
        out.append("</td></tr>");
        proof {
            assert(hs@.take(i + 1).drop_last() =~= hs@.take(i as int));
            assert(out@ =~= head + hotspot_html_rows(hs@.take(i + 1)));
        }
    }
    proof {
        assert(out@ =~= old(out)@ + html_hotspots(hs@));
    }
}

fn push_suggestion_html(out: &mut String, s: &Suggestion, g: &SuggestionFigures, speedup: &String)
    ensures
        final(out)@ == old(out)@ + suggestion_html(*s, *g, speedup@),
{
    out.append("<div class=\"rec\"><h3>");
    push_escaped(out, s.target.as_str());
    out.append("</h3><p><b>Problem:</b> ");
    push_escaped(out, s.problem.as_str());
    out.append("</p><p><b>Fix:</b> ");
    push_escaped(out, s.fix.as_str());
    out.append("</p><p><b>Impact:</b> ");
    push_escaped(out, speedup.as_str());
    out.append("x &rarr; ");
    push_escaped(out, g.projected_speedup.as_str());
    out.append("x (+");
    push_escaped(out, g.speedup_gain.as_str());
    out.append("x)</p></div>");
    proof {
        assert(out@ =~= old(out)@ + suggestion_html(*s, *g, speedup@));
    }
}

/// Self-contained HTML report with no external assets. Every string it
/// inserts, figures included, is escaped.
pub fn to_html(analysis: &Analysis, suggestions: &[Suggestion], figures: &ReportFigures) -> (r:
    String)
    requires
        figures.suggestions@.len() == suggestions@.len(),
    ensures
        r@ == html_report(*analysis, suggestions@, *figures),
{
    let mut out = String::from_str(
        "<!doctype html><html lang=\"en\"><head><meta charset=\"utf-8\"><meta name=\"viewport\" content=\"width=device-width,initial-scale=1\"><title>Movespan Contention Report</title><style>body{font:15px/1.5 system-ui,sans-serif;max-width:820px;margin:2rem auto;padding:0 1rem;color:#111}h1{margin-bottom:.25rem}table{border-collapse:collapse;width:100%;margin:1rem 0}td,th{border:1px solid #ddd;padding:.5rem;text-align:left}th{background:#f5f5f5}.rec{border-left:3px solid #333;padding:.25rem 1rem;margin:1rem 0;background:#fafafa}.note{color:#666;font-size:.85rem;margin-top:2rem}</style></head><body><h1>Movespan Contention Report</h1><p>Parallelizability <b>",
    );
    push_escaped(&mut out, figures.parallelizability_pct.as_str());
    out.append("%</b> &middot; estimated speedup <b>");
    push_escaped(&mut out, figures.speedup.as_str());
    out.append("x</b> of ");
    push_decimal(&mut out, analysis.threads as u64);
    out.append("x ideal &middot; ");
    push_decimal(&mut out, analysis.txn_count as u64);
    out.append(" transactions &middot; ");
    push_decimal(&mut out, analysis.conflict_edges as u64);
    out.append(
        " conflict edges</p><h2>Hotspots</h2><table><tr><th>Location</th><th>Deps</th><th>Blocked cost</th></tr>",
    );
    push_html_hotspots(&mut out, &analysis.hotspots);
    out.append("</table><h2>Recommendations</h2>");
    let ghost head = out@;
    for i in 0..suggestions.len()
        invariant
            figures.suggestions@.len() == suggestions@.len(),
            out@ == head + suggestions_html(
                suggestions@,
                figures.suggestions@,
                figures.speedup@,
                i as int,
            ),
    {
        push_suggestion_html(&mut out, &suggestions[i], &figures.suggestions[i], &figures.speedup);
        proof {
            assert(out@ =~= head + suggestions_html(
                suggestions@,
                figures.suggestions@,
                figures.speedup@,
                i + 1,
            ));
        }
    }
    out.append("<p class=\"note\">");
    push_escaped(&mut out, model_note_str());
    out.append("</p></body></html>");
    proof {
        assert(out@ =~= html_report(*analysis, suggestions@, *figures));
    }
    out
}

// ---------------------------------------------------------------------------
// Tag structure of the HTML report
// ---------------------------------------------------------------------------

/// The characters of the tags of `s`, in order, reading from the state
/// `inside` (whether a tag is open): everything from each `<` to the next
/// `>`, both included.
pub open spec fn tag_chars(s: Seq<char>, inside: bool) -> Seq<char>
    decreases s.len(),
{
    if s.len() == 0 {
        Seq::empty()
    } else {
        let now = s[0] == '<' || inside;
        let next = now && s[0] != '>';
        (if now {
            seq![s[0]]
        } else {
            Seq::empty()
        }) + tag_chars(s.skip(1), next)
    }
}

/// Whether a tag is open after reading `s` from the state `inside`.
pub open spec fn tag_open_after(s: Seq<char>, inside: bool) -> bool
    decreases s.len(),
{
    if s.len() == 0 {
        inside
    } else {
        let now = s[0] == '<' || inside;
        tag_open_after(s.skip(1), now && s[0] != '>')
    }
}

/// The tags of a whole page.
pub open spec fn page_tags(s: Seq<char>) -> Seq<char> {
    tag_chars(s, false)
}

/// `s` holds no angle bracket.
pub open spec fn angle_free(s: Seq<char>) -> bool {
    forall|i: int| 0 <= i < s.len() ==> #[trigger] s[i] != '<' && s[i] != '>'
}

/// `x` and `y` show the same tags and leave the same state, read from `st`.
spec fn same_tags_from(x: Seq<char>, y: Seq<char>, st: bool) -> bool {
    tag_chars(x, st) == tag_chars(y, st) && tag_open_after(x, st) == tag_open_after(y, st)
}

proof fn lemma_tags_concat(a: Seq<char>, b: Seq<char>, st: bool)
    ensures
        tag_chars(a + b, st) == tag_chars(a, st) + tag_chars(b, tag_open_after(a, st)),
        tag_open_after(a + b, st) == tag_open_after(b, tag_open_after(a, st)),
    decreases a.len(),
{
    if a.len() == 0 {
        assert(a + b =~= b);
        assert(tag_chars(a, st) + tag_chars(b, st) =~= tag_chars(b, st));
    } else {
        let now = a[0] == '<' || st;
        lemma_tags_concat(a.skip(1), b, now && a[0] != '>');
        assert((a + b).skip(1) =~= a.skip(1) + b);
        assert((a + b)[0] == a[0]);
        let head: Seq<char> = if now {
            seq![a[0]]
        } else {
            Seq::empty()
        };
        assert(head + (tag_chars(a.skip(1), now && a[0] != '>') + tag_chars(
            b,
            tag_open_after(a, st),
        )) =~= (head + tag_chars(a.skip(1), now && a[0] != '>')) + tag_chars(
            b,
            tag_open_after(a, st),
        ));
    }
}

proof fn lemma_angle_free_tags(x: Seq<char>, st: bool)
    requires
        angle_free(x),
    ensures
        !st ==> tag_chars(x, st) == Seq::<char>::empty(),
        tag_open_after(x, st) == st,
    decreases x.len(),
{
    if x.len() > 0 {
        assert(x[0] != '<' && x[0] != '>');
        assert forall|i: int| 0 <= i < x.skip(1).len() implies #[trigger] x.skip(1)[i] != '<'
            && x.skip(1)[i] != '>' by {
            assert(x.skip(1)[i] == x[i + 1]);
        }
        lemma_angle_free_tags(x.skip(1), st);
        if !st {
            assert(tag_chars(x, st) =~= Seq::<char>::empty());
        }
    }
}

proof fn lemma_no_open_stays_closed(x: Seq<char>)
    requires
        forall|i: int| 0 <= i < x.len() ==> #[trigger] x[i] != '<',
    ensures
        !tag_open_after(x, false),
    decreases x.len(),
{
    if x.len() > 0 {
        assert forall|i: int| 0 <= i < x.skip(1).len() implies #[trigger] x.skip(1)[i] != '<' by {
            assert(x.skip(1)[i] == x[i + 1]);
        }
        lemma_no_open_stays_closed(x.skip(1));
    }
}

/// A text with a `>` after its last `<` leaves no tag open.
proof fn lemma_closing(x: Seq<char>, st: bool, k: int)
    requires
        0 <= k < x.len(),
        x[k] == '>',
        forall|i: int| k < i < x.len() ==> #[trigger] x[i] != '<',
    ensures
        !tag_open_after(x, st),
    decreases x.len(),
{
    let now = x[0] == '<' || st;
    if k == 0 {
        assert forall|i: int| 0 <= i < x.skip(1).len() implies #[trigger] x.skip(1)[i] != '<' by {
            assert(x.skip(1)[i] == x[i + 1]);
        }
        lemma_no_open_stays_closed(x.skip(1));
    } else {
        assert forall|i: int| k - 1 < i < x.skip(1).len() implies #[trigger] x.skip(1)[i] != '<' by {
            assert(x.skip(1)[i] == x[i + 1]);
        }
        lemma_closing(x.skip(1), now && x[0] != '>', k - 1);
    }
}

proof fn lemma_cat(x1: Seq<char>, y1: Seq<char>, x2: Seq<char>, y2: Seq<char>, st: bool)
    requires
        same_tags_from(x1, y1, st),
        same_tags_from(x2, y2, tag_open_after(x1, st)),
    ensures
        same_tags_from(x1 + x2, y1 + y2, st),
        tag_open_after(x1 + x2, st) == tag_open_after(x2, tag_open_after(x1, st)),
{
    lemma_tags_concat(x1, x2, st);
    lemma_tags_concat(y1, y2, st);
}

/// Append a constant `c` that ends tags (a `>` after its last `<`).
proof fn lemma_cat_closing(x: Seq<char>, y: Seq<char>, c: Seq<char>, k: int)
    requires
        same_tags_from(x, y, false),
        0 <= k < c.len(),
        c[k] == '>',
        forall|i: int| k < i < c.len() ==> #[trigger] c[i] != '<',
    ensures
        same_tags_from(x + c, y + c, false),
        !tag_open_after(x + c, false),
{
    lemma_cat(x, y, c, c, false);
    lemma_closing(c, tag_open_after(x, false), k);
}

/// Append angle-free text `u` and `v` outside any tag.
proof fn lemma_cat_free(x: Seq<char>, y: Seq<char>, u: Seq<char>, v: Seq<char>)
    requires
        same_tags_from(x, y, false),
        !tag_open_after(x, false),
        angle_free(u),
        angle_free(v),
    ensures
        same_tags_from(x + u, y + v, false),
        !tag_open_after(x + u, false),
{
    lemma_angle_free_tags(u, false);
    lemma_angle_free_tags(v, false);
    lemma_cat(x, y, u, v, false);
}

proof fn lemma_escaped_angle_free(s: Seq<char>)
    ensures
        angle_free(escaped(s)),
{
    law_escape_removes_markup(s);
    assert forall|i: int| 0 <= i < escaped(s).len() implies #[trigger] escaped(s)[i] != '<'
        && escaped(s)[i] != '>' by {
        assert(!markup_char(escaped(s)[i]));
    }
}

proof fn lemma_decimal_angle_free(n: nat)
    ensures
        angle_free(decimal(n)),
    decreases n,
{
    if n >= 10 {
        lemma_decimal_angle_free(n / 10);
        assert forall|i: int| 0 <= i < decimal(n).len() implies #[trigger] decimal(n)[i] != '<'
            && decimal(n)[i] != '>' by {
            if i < decimal(n / 10).len() {
                assert(decimal(n)[i] == decimal(n / 10)[i]);
            }
        }
    }
}

proof fn lemma_row_tags(x: Seq<char>, y: Seq<char>, h1: Hotspot, h2: Hotspot)
    requires
        same_tags_from(x, y, false),
        !tag_open_after(x, false),
    ensures
        same_tags_from(x + hotspot_html_row(h1), y + hotspot_html_row(h2), false),
        !tag_open_after(x + hotspot_html_row(h1), false),
{
    reveal_strlit("<tr><td>");
    reveal_strlit("</td><td>");
    reveal_strlit("</td></tr>");
    let c0 = "<tr><td>"@;
    let c1 = "</td><td>"@;
    let c2 = "</td></tr>"@;
    let (e1, e2) = (escaped(h1.label@), escaped(h2.label@));
    let (d1, d2) = (decimal(h1.edges_caused as nat), decimal(h2.edges_caused as nat));
    let (b1, b2) = (decimal(h1.blocked_cost as nat), decimal(h2.blocked_cost as nat));
    lemma_escaped_angle_free(h1.label@);
    lemma_escaped_angle_free(h2.label@);
    lemma_decimal_angle_free(h1.edges_caused as nat);
    lemma_decimal_angle_free(h2.edges_caused as nat);
    lemma_decimal_angle_free(h1.blocked_cost as nat);
    lemma_decimal_angle_free(h2.blocked_cost as nat);
    lemma_cat_closing(x, y, c0, 7);
    lemma_cat_free(x + c0, y + c0, e1, e2);
    lemma_cat_closing(x + c0 + e1, y + c0 + e2, c1, 8);
    lemma_cat_free(x + c0 + e1 + c1, y + c0 + e2 + c1, d1, d2);
    lemma_cat_closing(x + c0 + e1 + c1 + d1, y + c0 + e2 + c1 + d2, c1, 8);
    lemma_cat_free(x + c0 + e1 + c1 + d1 + c1, y + c0 + e2 + c1 + d2 + c1, b1, b2);
    lemma_cat_closing(x + c0 + e1 + c1 + d1 + c1 + b1, y + c0 + e2 + c1 + d2 + c1 + b2, c2, 9);
    assert(x + hotspot_html_row(h1) =~= x + c0 + e1 + c1 + d1 + c1 + b1 + c2);
    assert(y + hotspot_html_row(h2) =~= y + c0 + e2 + c1 + d2 + c1 + b2 + c2);
}

proof fn lemma_rows_tags(x: Seq<char>, y: Seq<char>, h1: Seq<Hotspot>, h2: Seq<Hotspot>)
    requires
        same_tags_from(x, y, false),
        !tag_open_after(x, false),
        h1.len() == h2.len(),
    ensures
        same_tags_from(x + hotspot_html_rows(h1), y + hotspot_html_rows(h2), false),
        !tag_open_after(x + hotspot_html_rows(h1), false),
    decreases h1.len(),
{
    if h1.len() == 0 {
        assert(x + hotspot_html_rows(h1) =~= x);
        assert(y + hotspot_html_rows(h2) =~= y);
    } else {
        lemma_rows_tags(x, y, h1.drop_last(), h2.drop_last());
        lemma_row_tags(
            x + hotspot_html_rows(h1.drop_last()),
            y + hotspot_html_rows(h2.drop_last()),
            h1.last(),
            h2.last(),
        );
        assert(x + hotspot_html_rows(h1) =~= x + hotspot_html_rows(h1.drop_last())
            + hotspot_html_row(h1.last()));
        assert(y + hotspot_html_rows(h2) =~= y + hotspot_html_rows(h2.drop_last())
            + hotspot_html_row(h2.last()));
    }
}

proof fn lemma_card_tags(
    x: Seq<char>,
    y: Seq<char>,
    s1: Suggestion,
    g1: SuggestionFigures,
    p1: Seq<char>,
    s2: Suggestion,
    g2: SuggestionFigures,
    p2: Seq<char>,
)
    requires
        same_tags_from(x, y, false),
        !tag_open_after(x, false),
    ensures
        same_tags_from(x + suggestion_html(s1, g1, p1), y + suggestion_html(s2, g2, p2), false),
        !tag_open_after(x + suggestion_html(s1, g1, p1), false),
{
    reveal_strlit("<div class=\"rec\"><h3>");
    reveal_strlit("</h3><p><b>Problem:</b> ");
    reveal_strlit("</p><p><b>Fix:</b> ");
    reveal_strlit("</p><p><b>Impact:</b> ");
    reveal_strlit("x &rarr; ");
    reveal_strlit("x (+");
    reveal_strlit("x)</p></div>");
    let c0 = "<div class=\"rec\"><h3>"@;
    let c1 = "</h3><p><b>Problem:</b> "@;
    let c2 = "</p><p><b>Fix:</b> "@;
    let c3 = "</p><p><b>Impact:</b> "@;
    let c4 = "x &rarr; "@;
    let c5 = "x (+"@;
    let c6 = "x)</p></div>"@;
    assert(angle_free(c4));
    assert(angle_free(c5));
    lemma_escaped_angle_free(s1.target@);
    lemma_escaped_angle_free(s2.target@);
    lemma_escaped_angle_free(s1.problem@);
    lemma_escaped_angle_free(s2.problem@);
    lemma_escaped_angle_free(s1.fix@);
    lemma_escaped_angle_free(s2.fix@);
    lemma_escaped_angle_free(p1);
    lemma_escaped_angle_free(p2);
    lemma_escaped_angle_free(g1.projected_speedup@);
    lemma_escaped_angle_free(g2.projected_speedup@);
    lemma_escaped_angle_free(g1.speedup_gain@);
    lemma_escaped_angle_free(g2.speedup_gain@);
    let a0 = x + c0;
    let b0 = y + c0;
    lemma_cat_closing(x, y, c0, 20);
    let a1 = a0 + escaped(s1.target@);
    let b1 = b0 + escaped(s2.target@);
    lemma_cat_free(a0, b0, escaped(s1.target@), escaped(s2.target@));
    lemma_cat_closing(a1, b1, c1, 22);
    let a2 = a1 + c1 + escaped(s1.problem@);
    let b2 = b1 + c1 + escaped(s2.problem@);
    lemma_cat_free(a1 + c1, b1 + c1, escaped(s1.problem@), escaped(s2.problem@));
    lemma_cat_closing(a2, b2, c2, 17);
    let a3 = a2 + c2 + escaped(s1.fix@);
    let b3 = b2 + c2 + escaped(s2.fix@);
    lemma_cat_free(a2 + c2, b2 + c2, escaped(s1.fix@), escaped(s2.fix@));
    lemma_cat_closing(a3, b3, c3, 20);
    let a4 = a3 + c3 + escaped(p1);
    let b4 = b3 + c3 + escaped(p2);
    lemma_cat_free(a3 + c3, b3 + c3, escaped(p1), escaped(p2));
    lemma_cat_free(a4, b4, c4, c4);
    let a5 = a4 + c4 + escaped(g1.projected_speedup@);
    let b5 = b4 + c4 + escaped(g2.projected_speedup@);
    lemma_cat_free(a4 + c4, b4 + c4, escaped(g1.projected_speedup@), escaped(g2.projected_speedup@));
    lemma_cat_free(a5, b5, c5, c5);
    let a6 = a5 + c5 + escaped(g1.speedup_gain@);
    let b6 = b5 + c5 + escaped(g2.speedup_gain@);
    lemma_cat_free(a5 + c5, b5 + c5, escaped(g1.speedup_gain@), escaped(g2.speedup_gain@));
    lemma_cat_closing(a6, b6, c6, 11);
    assert(x + suggestion_html(s1, g1, p1) =~= a6 + c6);
    assert(y + suggestion_html(s2, g2, p2) =~= b6 + c6);
}

proof fn lemma_cards_tags(
    x: Seq<char>,
    y: Seq<char>,
    ss1: Seq<Suggestion>,
    gs1: Seq<SuggestionFigures>,
    p1: Seq<char>,
    ss2: Seq<Suggestion>,
    gs2: Seq<SuggestionFigures>,
    p2: Seq<char>,
    k: int,
)
    requires
        same_tags_from(x, y, false),
        !tag_open_after(x, false),
    ensures
        same_tags_from(
            x + suggestions_html(ss1, gs1, p1, k),
            y + suggestions_html(ss2, gs2, p2, k),
            false,
        ),
        !tag_open_after(x + suggestions_html(ss1, gs1, p1, k), false),
    decreases k,
{
    if k <= 0 {
        assert(x + suggestions_html(ss1, gs1, p1, k) =~= x);
        assert(y + suggestions_html(ss2, gs2, p2, k) =~= y);
    } else {
        lemma_cards_tags(x, y, ss1, gs1, p1, ss2, gs2, p2, k - 1);
        lemma_card_tags(
            x + suggestions_html(ss1, gs1, p1, k - 1),
            y + suggestions_html(ss2, gs2, p2, k - 1),
            ss1[k - 1],
            gs1[k - 1],
            p1,
            ss2[k - 1],
            gs2[k - 1],
            p2,
        );
        assert(x + suggestions_html(ss1, gs1, p1, k) =~= x + suggestions_html(ss1, gs1, p1, k - 1)
            + suggestion_html(ss1[k - 1], gs1[k - 1], p1));
        assert(y + suggestions_html(ss2, gs2, p2, k) =~= y + suggestions_html(ss2, gs2, p2, k - 1)
            + suggestion_html(ss2[k - 1], gs2[k - 1], p2));
    }
}

proof fn lemma_html_hotspots_tags(x: Seq<char>, y: Seq<char>, h1: Seq<Hotspot>, h2: Seq<Hotspot>)
    requires
        same_tags_from(x, y, false),
        !tag_open_after(x, false),
        (h1.len() == 0) == (h2.len() == 0),
        listed(h1) == listed(h2),
    ensures
        same_tags_from(x + html_hotspots(h1), y + html_hotspots(h2), false),
        !tag_open_after(x + html_hotspots(h1), false),
{
    if h1.len() == 0 {
        reveal_strlit("<tr><td colspan=\"3\">");
        reveal_strlit("None — the workload is already contention-free.");
        reveal_strlit("</td></tr>");
        let c0 = "<tr><td colspan=\"3\">"@;
        let t = no_hotspots_text();
        let c1 = "</td></tr>"@;
        assert(angle_free(t));
        lemma_cat_closing(x, y, c0, 19);
        lemma_cat_free(x + c0, y + c0, t, t);
        lemma_cat_closing(x + c0 + t, y + c0 + t, c1, 9);
        assert(x + html_hotspots(h1) =~= x + c0 + t + c1);
        assert(y + html_hotspots(h2) =~= y + c0 + t + c1);
    } else {
        lemma_rows_tags(x, y, h1.take(listed(h1)), h2.take(listed(h2)));
    }
}

/// The markup of the HTML report does not depend on the text it shows: two
/// reports with as many listed hotspots (none, or the same number) and as many
/// suggestions have the same tags in the same order, whatever the labels,
/// advice, figures and counts. Every shown string is escaped, so none can
/// open a tag.
#[verifier::spinoff_prover]
#[verifier::rlimit(40)]
pub proof fn law_html_tags_fixed(
    a1: Analysis,
    ss1: Seq<Suggestion>,
    f1: ReportFigures,
    a2: Analysis,
    ss2: Seq<Suggestion>,
    f2: ReportFigures,
)
    requires
        (a1.hotspots@.len() == 0) == (a2.hotspots@.len() == 0),
        listed(a1.hotspots@) == listed(a2.hotspots@),
        ss1.len() == ss2.len(),
    ensures
        page_tags(html_report(a1, ss1, f1)) == page_tags(html_report(a2, ss2, f2)),
{
    reveal_strlit("<!doctype html><html lang=\"en\"><head><meta charset=\"utf-8\"><meta name=\"viewport\" content=\"width=device-width,initial-scale=1\"><title>Movespan Contention Report</title><style>body{font:15px/1.5 system-ui,sans-serif;max-width:820px;margin:2rem auto;padding:0 1rem;color:#111}h1{margin-bottom:.25rem}table{border-collapse:collapse;width:100%;margin:1rem 0}td,th{border:1px solid #ddd;padding:.5rem;text-align:left}th{background:#f5f5f5}.rec{border-left:3px solid #333;padding:.25rem 1rem;margin:1rem 0;background:#fafafa}.note{color:#666;font-size:.85rem;margin-top:2rem}</style></head><body><h1>Movespan Contention Report</h1><p>Parallelizability <b>");
    reveal_strlit("%</b> &middot; estimated speedup <b>");
    reveal_strlit("x</b> of ");
    reveal_strlit("x ideal &middot; ");
    reveal_strlit(" transactions &middot; ");
    reveal_strlit(
        " conflict edges</p><h2>Hotspots</h2><table><tr><th>Location</th><th>Deps</th><th>Blocked cost</th></tr>",
    );
    reveal_strlit("</table><h2>Recommendations</h2>");
    reveal_strlit("<p class=\"note\">");
    reveal_strlit("</p></body></html>");
    let h = html_head();
    let c1 = "%</b> &middot; estimated speedup <b>"@;
    let c2 = "x</b> of "@;
    let c3 = "x ideal &middot; "@;
    let c4 = " transactions &middot; "@;
    let c5 =
        " conflict edges</p><h2>Hotspots</h2><table><tr><th>Location</th><th>Deps</th><th>Blocked cost</th></tr>"@;
    let c6 = "</table><h2>Recommendations</h2>"@;
    let c7 = "<p class=\"note\">"@;
    let c8 = "</p></body></html>"@;
    assert(angle_free(c3));
    assert(angle_free(c4));
    let e: Seq<char> = Seq::empty();
    assert(h.len() == 648 && h[647] == '>');
    lemma_cat_closing(e, e, h, 647);
    assert(e + h =~= h);
    lemma_escaped_angle_free(f1.parallelizability_pct@);
    lemma_escaped_angle_free(f2.parallelizability_pct@);
    lemma_escaped_angle_free(f1.speedup@);
    lemma_escaped_angle_free(f2.speedup@);
    lemma_escaped_angle_free(model_note());
    lemma_decimal_angle_free(a1.threads as nat);
    lemma_decimal_angle_free(a2.threads as nat);
    lemma_decimal_angle_free(a1.txn_count as nat);
    lemma_decimal_angle_free(a2.txn_count as nat);
    lemma_decimal_angle_free(a1.conflict_edges as nat);
    lemma_decimal_angle_free(a2.conflict_edges as nat);
    let x1 = h + escaped(f1.parallelizability_pct@);
    let y1 = h + escaped(f2.parallelizability_pct@);
    lemma_cat_free(h, h, escaped(f1.parallelizability_pct@), escaped(f2.parallelizability_pct@));
    lemma_cat_closing(x1, y1, c1, 35);
    let x2 = x1 + c1 + escaped(f1.speedup@);
    let y2 = y1 + c1 + escaped(f2.speedup@);
    lemma_cat_free(x1 + c1, y1 + c1, escaped(f1.speedup@), escaped(f2.speedup@));
    lemma_cat_closing(x2, y2, c2, 4);
    let x3 = x2 + c2 + decimal(a1.threads as nat);
    let y3 = y2 + c2 + decimal(a2.threads as nat);
    lemma_cat_free(x2 + c2, y2 + c2, decimal(a1.threads as nat), decimal(a2.threads as nat));
    lemma_cat_free(x3, y3, c3, c3);
    let x4 = x3 + c3 + decimal(a1.txn_count as nat);
    let y4 = y3 + c3 + decimal(a2.txn_count as nat);
    lemma_cat_free(x3 + c3, y3 + c3, decimal(a1.txn_count as nat), decimal(a2.txn_count as nat));
    lemma_cat_free(x4, y4, c4, c4);
    let x5 = x4 + c4 + decimal(a1.conflict_edges as nat);
    let y5 = y4 + c4 + decimal(a2.conflict_edges as nat);
    lemma_cat_free(
        x4 + c4,
        y4 + c4,
        decimal(a1.conflict_edges as nat),
        decimal(a2.conflict_edges as nat),
    );
    lemma_cat_closing(x5, y5, c5, 102);
    lemma_html_hotspots_tags(x5 + c5, y5 + c5, a1.hotspots@, a2.hotspots@);
    let x6 = x5 + c5 + html_hotspots(a1.hotspots@);
    let y6 = y5 + c5 + html_hotspots(a2.hotspots@);
    lemma_cat_closing(x6, y6, c6, 31);
    lemma_cards_tags(
        x6 + c6,
        y6 + c6,
        ss1,
        f1.suggestions@,
        f1.speedup@,
        ss2,
        f2.suggestions@,
        f2.speedup@,
        ss1.len() as int,
    );
    let x7 = x6 + c6 + suggestions_html(ss1, f1.suggestions@, f1.speedup@, ss1.len() as int);
    let y7 = y6 + c6 + suggestions_html(ss2, f2.suggestions@, f2.speedup@, ss2.len() as int);
    lemma_cat_closing(x7, y7, c7, 15);
    lemma_cat_free(x7 + c7, y7 + c7, escaped(model_note()), escaped(model_note()));
    lemma_cat_closing(x7 + c7 + escaped(model_note()), y7 + c7 + escaped(model_note()), c8, 17);
    assert(html_report(a1, ss1, f1) =~= x7 + c7 + escaped(model_note()) + c8);
    assert(html_report(a2, ss2, f2) =~= y7 + c7 + escaped(model_note()) + c8);
}


// ---------------------------------------------------------------------------
// Where each suggestion appears
// ---------------------------------------------------------------------------

proof fn lemma_text_block_in(
    ss: Seq<Suggestion>,
    gs: Seq<SuggestionFigures>,
    speedup: Seq<char>,
    k: int,
    i: int,
) -> (pq: (Seq<char>, Seq<char>))
    requires
        0 <= i < k,
    ensures
        suggestion_text_blocks(ss, gs, speedup, k) == pq.0 + suggestion_text_block(
            i as nat,
            ss[i],
            gs[i],
            speedup,
        ) + pq.1,
    decreases k,
{
    let last = suggestion_text_block((k - 1) as nat, ss[k - 1], gs[k - 1], speedup);
    if i == k - 1 {
        let pq = (suggestion_text_blocks(ss, gs, speedup, k - 1), Seq::<char>::empty());
        assert(suggestion_text_blocks(ss, gs, speedup, k) =~= pq.0 + last + pq.1);
        pq
    } else {
        let (p, q) = lemma_text_block_in(ss, gs, speedup, k - 1, i);
        let b = suggestion_text_block(i as nat, ss[i], gs[i], speedup);
        assert(suggestion_text_blocks(ss, gs, speedup, k) =~= p + b + (q + last));
        (p, q + last)
    }
}

proof fn lemma_html_card_in(
    ss: Seq<Suggestion>,
    gs: Seq<SuggestionFigures>,
    speedup: Seq<char>,
    k: int,
    i: int,
) -> (pq: (Seq<char>, Seq<char>))
    requires
        0 <= i < k,
    ensures
        suggestions_html(ss, gs, speedup, k) == pq.0 + suggestion_html(ss[i], gs[i], speedup)
            + pq.1,
    decreases k,
{
    let last = suggestion_html(ss[k - 1], gs[k - 1], speedup);
    if i == k - 1 {
        let pq = (suggestions_html(ss, gs, speedup, k - 1), Seq::<char>::empty());
        assert(suggestions_html(ss, gs, speedup, k) =~= pq.0 + last + pq.1);
        pq
    } else {
        let (p, q) = lemma_html_card_in(ss, gs, speedup, k - 1, i);
        let b = suggestion_html(ss[i], gs[i], speedup);
        assert(suggestions_html(ss, gs, speedup, k) =~= p + b + (q + last));
        (p, q + last)
    }
}

/// The text report shows every suggestion, numbered from 1 in order, as a
/// block with its target, then its problem, then its fix, then its impact:
/// the current speedup, an arrow, the projected speedup, the gain and the
/// projected parallelizability.
#[verifier::spinoff_prover]
#[verifier::rlimit(40)]
pub proof fn law_text_shows_each_suggestion(a: Analysis, ss: Seq<Suggestion>, f: ReportFigures, i: int)
    requires
        0 <= i < ss.len(),
    ensures
        contains_run(
            text_report(a, ss, f),
            "\n["@ + decimal((i + 1) as nat) + "] "@ + ss[i].target@ + "\n    problem: "@
                + ss[i].problem@ + "\n    fix    : "@ + ss[i].fix@ + "\n    impact : "@ + f.speedup@
                + "x -> "@ + f.suggestions@[i].projected_speedup@ + "x  (+"@
                + f.suggestions@[i].speedup_gain@ + "x, "@ + f.suggestions@[i].parallel_pct@
                + "% parallel)\n"@,
        ),
{
    let gs = f.suggestions@;
    let b = suggestion_text_block(i as nat, ss[i], gs[i], f.speedup@);
    let (p, q) = lemma_text_block_in(ss, gs, f.speedup@, ss.len() as int, i);
    let pre = text_summary(a, f) + text_hotspots(a.hotspots@) + "RECOMMENDATIONS\n---------------\n"@
        + p;
    let post = q + "\n"@ + model_note() + "\n"@;
    assert(text_report(a, ss, f) =~= pre + b + post);
    lemma_contains_middle(pre, b, post);
    assert(b =~= "\n["@ + decimal((i + 1) as nat) + "] "@ + ss[i].target@ + "\n    problem: "@
        + ss[i].problem@ + "\n    fix    : "@ + ss[i].fix@ + "\n    impact : "@ + f.speedup@
        + "x -> "@ + gs[i].projected_speedup@ + "x  (+"@ + gs[i].speedup_gain@ + "x, "@
        + gs[i].parallel_pct@ + "% parallel)\n"@);
}

/// The HTML report shows every suggestion as a card with its escaped target,
/// problem and fix, then its impact: the current speedup, an arrow, and the
/// projected speedup with the gain.
#[verifier::spinoff_prover]
#[verifier::rlimit(40)]
pub proof fn law_html_shows_each_suggestion(a: Analysis, ss: Seq<Suggestion>, f: ReportFigures, i: int)
    requires
        0 <= i < ss.len(),
    ensures
        contains_run(
            html_report(a, ss, f),
            "<div class=\"rec\"><h3>"@ + escaped(ss[i].target@) + "</h3><p><b>Problem:</b> "@
                + escaped(ss[i].problem@) + "</p><p><b>Fix:</b> "@ + escaped(ss[i].fix@)
                + "</p><p><b>Impact:</b> "@ + escaped(f.speedup@) + "x &rarr; "@ + escaped(
                f.suggestions@[i].projected_speedup@,
            ) + "x (+"@ + escaped(f.suggestions@[i].speedup_gain@) + "x)</p></div>"@,
        ),
{
    let gs = f.suggestions@;
    let b = suggestion_html(ss[i], gs[i], f.speedup@);
    let (p, q) = lemma_html_card_in(ss, gs, f.speedup@, ss.len() as int, i);
    let pre = html_head() + escaped(f.parallelizability_pct@) + "%</b> &middot; estimated speedup <b>"@
        + escaped(f.speedup@) + "x</b> of "@ + decimal(a.threads as nat) + "x ideal &middot; "@
        + decimal(a.txn_count as nat) + " transactions &middot; "@ + decimal(
        a.conflict_edges as nat,
    )
        + " conflict edges</p><h2>Hotspots</h2><table><tr><th>Location</th><th>Deps</th><th>Blocked cost</th></tr>"@
        + html_hotspots(a.hotspots@) + "</table><h2>Recommendations</h2>"@ + p;
    let post = q + "<p class=\"note\">"@ + escaped(model_note()) + "</p></body></html>"@;
    assert(html_report(a, ss, f) =~= pre + b + post);
    lemma_contains_middle(pre, b, post);
    assert(b =~= "<div class=\"rec\"><h3>"@ + escaped(ss[i].target@) + "</h3><p><b>Problem:</b> "@
        + escaped(ss[i].problem@) + "</p><p><b>Fix:</b> "@ + escaped(ss[i].fix@)
        + "</p><p><b>Impact:</b> "@ + escaped(f.speedup@) + "x &rarr; "@ + escaped(
        gs[i].projected_speedup@,
    ) + "x (+"@ + escaped(gs[i].speedup_gain@) + "x)</p></div>"@);
}


proof fn lemma_text_line_in(hs: Seq<Hotspot>, i: int) -> (pq: (Seq<char>, Seq<char>))
    requires
        0 <= i < hs.len(),
    ensures
        hotspot_text_lines(hs) == pq.0 + hotspot_text_line(i as nat, hs[i]) + pq.1,
    decreases hs.len(),
{
    let last = hotspot_text_line((hs.len() - 1) as nat, hs.last());
    if i == hs.len() - 1 {
        let pq = (hotspot_text_lines(hs.drop_last()), Seq::<char>::empty());
        assert(hotspot_text_lines(hs) =~= pq.0 + last + pq.1);
        pq
    } else {
        let (p, q) = lemma_text_line_in(hs.drop_last(), i);
        assert(hs.drop_last()[i] == hs[i]);
        let b = hotspot_text_line(i as nat, hs[i]);
        assert(hotspot_text_lines(hs) =~= p + b + (q + last));
        (p, q + last)
    }
}

proof fn lemma_html_row_in(hs: Seq<Hotspot>, i: int) -> (pq: (Seq<char>, Seq<char>))
    requires
        0 <= i < hs.len(),
    ensures
        hotspot_html_rows(hs) == pq.0 + hotspot_html_row(hs[i]) + pq.1,
    decreases hs.len(),
{
    let last = hotspot_html_row(hs.last());
    if i == hs.len() - 1 {
        let pq = (hotspot_html_rows(hs.drop_last()), Seq::<char>::empty());
        assert(hotspot_html_rows(hs) =~= pq.0 + last + pq.1);
        pq
    } else {
        let (p, q) = lemma_html_row_in(hs.drop_last(), i);
        assert(hs.drop_last()[i] == hs[i]);
        let b = hotspot_html_row(hs[i]);
        assert(hotspot_html_rows(hs) =~= p + b + (q + last));
        (p, q + last)
    }
}

/// The text report lists the first ten hotspots in ranking order, numbered
/// from 1 (right-aligned in two columns), each with its label, its number of
/// edges and its blocked cost; without hotspots it says so.
#[verifier::spinoff_prover]
#[verifier::rlimit(40)]
pub proof fn law_text_lists_hotspots(a: Analysis, ss: Seq<Suggestion>, f: ReportFigures, i: int)
    ensures
        0 <= i < 10 && i < a.hotspots@.len() ==> contains_run(
            text_report(a, ss, f),
            pad_left(decimal((i + 1) as nat), 2) + ". "@ + a.hotspots@[i].label@ + "  ("@ + decimal(
                a.hotspots@[i].edges_caused as nat,
            ) + " deps, blocked cost "@ + decimal(a.hotspots@[i].blocked_cost as nat) + ")\n"@,
        ),
        a.hotspots@.len() == 0 ==> contains_run(
            text_report(a, ss, f),
            "None — the workload is already contention-free.\n"@,
        ),
{
    let hs = a.hotspots@;
    let tail = "\n"@ + text_recommendations(ss, f.suggestions@, f.speedup@) + model_note() + "\n"@;
    let head = text_summary(a, f) + "TOP CONTENTION HOTSPOTS\n-----------------------\n"@;
    if hs.len() == 0 {
        reveal_strlit("None — the workload is already contention-free.");
        reveal_strlit("\n");
        reveal_strlit("None — the workload is already contention-free.\n");
        let b = no_hotspots_text() + "\n"@;
        assert(b =~= "None — the workload is already contention-free.\n"@);
        assert(text_report(a, ss, f) =~= head + b + tail);
        lemma_contains_middle(head, b, tail);
    } else if 0 <= i < 10 && i < hs.len() {
        let shown = hs.take(listed(hs));
        assert(shown[i] == hs[i]);
        let (p, q) = lemma_text_line_in(shown, i);
        let b = hotspot_text_line(i as nat, hs[i]);
        assert(text_report(a, ss, f) =~= (head + p) + b + (q + tail));
        lemma_contains_middle(head + p, b, q + tail);
    }
}

/// The HTML report's hotspot table holds the first ten hotspots in ranking
/// order, each a row with its escaped label, its number of edges and its
/// blocked cost; without hotspots it holds a single row saying so.
#[verifier::spinoff_prover]
#[verifier::rlimit(40)]
pub proof fn law_html_lists_hotspots(a: Analysis, ss: Seq<Suggestion>, f: ReportFigures, i: int)
    ensures
        0 <= i < 10 && i < a.hotspots@.len() ==> contains_run(
            html_report(a, ss, f),
            "<tr><td>"@ + escaped(a.hotspots@[i].label@) + "</td><td>"@ + decimal(
                a.hotspots@[i].edges_caused as nat,
            ) + "</td><td>"@ + decimal(a.hotspots@[i].blocked_cost as nat) + "</td></tr>"@,
        ),
        a.hotspots@.len() == 0 ==> contains_run(
            html_report(a, ss, f),
            "<tr><td colspan=\"3\">None — the workload is already contention-free.</td></tr>"@,
        ),
{
    let hs = a.hotspots@;
    let head = html_head() + escaped(f.parallelizability_pct@)
        + "%</b> &middot; estimated speedup <b>"@ + escaped(f.speedup@) + "x</b> of "@ + decimal(
        a.threads as nat,
    ) + "x ideal &middot; "@ + decimal(a.txn_count as nat) + " transactions &middot; "@
        + decimal(a.conflict_edges as nat)
        + " conflict edges</p><h2>Hotspots</h2><table><tr><th>Location</th><th>Deps</th><th>Blocked cost</th></tr>"@;
    let tail = "</table><h2>Recommendations</h2>"@ + suggestions_html(
        ss,
        f.suggestions@,
        f.speedup@,
        ss.len() as int,
    ) + "<p class=\"note\">"@ + escaped(model_note()) + "</p></body></html>"@;
    if hs.len() == 0 {
        reveal_strlit("<tr><td colspan=\"3\">");
        reveal_strlit("None — the workload is already contention-free.");
        reveal_strlit("</td></tr>");
        reveal_strlit("<tr><td colspan=\"3\">None — the workload is already contention-free.</td></tr>");
        let b = html_hotspots(hs);
        assert(b =~= "<tr><td colspan=\"3\">None — the workload is already contention-free.</td></tr>"@);
        assert(html_report(a, ss, f) =~= head + b + tail);
        lemma_contains_middle(head, b, tail);
    } else if 0 <= i < 10 && i < hs.len() {
        let shown = hs.take(listed(hs));
        assert(shown[i] == hs[i]);
        let (p, q) = lemma_html_row_in(shown, i);
        let b = hotspot_html_row(hs[i]);
        assert(html_report(a, ss, f) =~= (head + p) + b + (q + tail));
        lemma_contains_middle(head + p, b, q + tail);
    }
}


/// The text report opens with its headline figures, in this order: the
/// number of transactions, the threads modeled, the parallelizability, the
/// estimated speedup against the ideal (the thread count), the total work
/// over the span, and the number of conflict edges.
#[verifier::spinoff_prover]
#[verifier::rlimit(40)]
pub proof fn law_text_headline(a: Analysis, ss: Seq<Suggestion>, f: ReportFigures)
    ensures
        contains_run(
            text_report(a, ss, f),
            "Transactions       : "@ + decimal(a.txn_count as nat) + "\nThreads modeled    : "@
                + decimal(a.threads as nat) + "\nParallelizability  : "@ + f.parallelizability_pct@
                + "%\nEstimated speedup  : "@ + f.speedup@ + "x of "@ + decimal(a.threads as nat)
                + "x ideal\nWork / span        : "@ + decimal(a.total_work as nat) + " / "@ + decimal(
                a.span as nat,
            ) + "\nConflict edges     : "@ + decimal(a.conflict_edges as nat) + "\n"@,
        ),
{
    reveal_strlit("MOVESPAN CONTENTION REPORT\n==========================\n\nTransactions       : ");
    reveal_strlit("MOVESPAN CONTENTION REPORT\n==========================\n\n");
    reveal_strlit("Transactions       : ");
    reveal_strlit("\n\n");
    reveal_strlit("\n");
    let h = "MOVESPAN CONTENTION REPORT\n==========================\n\n"@;
    let nl = "\n"@;
    assert("MOVESPAN CONTENTION REPORT\n==========================\n\nTransactions       : "@ =~= h
        + "Transactions       : "@);
    assert("\n\n"@ =~= nl + nl);
    let needle = "Transactions       : "@ + decimal(a.txn_count as nat) + "\nThreads modeled    : "@
        + decimal(a.threads as nat) + "\nParallelizability  : "@ + f.parallelizability_pct@
        + "%\nEstimated speedup  : "@ + f.speedup@ + "x of "@ + decimal(a.threads as nat)
        + "x ideal\nWork / span        : "@ + decimal(a.total_work as nat) + " / "@ + decimal(
        a.span as nat,
    ) + "\nConflict edges     : "@ + decimal(a.conflict_edges as nat) + "\n"@;
    let rest = nl + text_hotspots(a.hotspots@) + text_recommendations(
        ss,
        f.suggestions@,
        f.speedup@,
    ) + model_note() + "\n"@;
    assert(text_summary(a, f) =~= h + needle + nl);
    assert(text_report(a, ss, f) =~= h + needle + rest);
    lemma_contains_middle(h, needle, rest);
}

/// The HTML report opens with its headline figures, in this order: the
/// escaped parallelizability, the escaped estimated speedup against the ideal
/// (the thread count), the number of transactions and the number of conflict
/// edges.
#[verifier::spinoff_prover]
#[verifier::rlimit(40)]
pub proof fn law_html_headline(a: Analysis, ss: Seq<Suggestion>, f: ReportFigures)
    ensures
        contains_run(
            html_report(a, ss, f),
            "<p>Parallelizability <b>"@ + escaped(f.parallelizability_pct@)
                + "%</b> &middot; estimated speedup <b>"@ + escaped(f.speedup@) + "x</b> of "@
                + decimal(a.threads as nat) + "x ideal &middot; "@ + decimal(a.txn_count as nat)
                + " transactions &middot; "@ + decimal(a.conflict_edges as nat)
                + " conflict edges</p>"@,
        ),
{
    reveal_strlit("<!doctype html><html lang=\"en\"><head><meta charset=\"utf-8\"><meta name=\"viewport\" content=\"width=device-width,initial-scale=1\"><title>Movespan Contention Report</title><style>body{font:15px/1.5 system-ui,sans-serif;max-width:820px;margin:2rem auto;padding:0 1rem;color:#111}h1{margin-bottom:.25rem}table{border-collapse:collapse;width:100%;margin:1rem 0}td,th{border:1px solid #ddd;padding:.5rem;text-align:left}th{background:#f5f5f5}.rec{border-left:3px solid #333;padding:.25rem 1rem;margin:1rem 0;background:#fafafa}.note{color:#666;font-size:.85rem;margin-top:2rem}</style></head><body><h1>Movespan Contention Report</h1><p>Parallelizability <b>");
    reveal_strlit("<!doctype html><html lang=\"en\"><head><meta charset=\"utf-8\"><meta name=\"viewport\" content=\"width=device-width,initial-scale=1\"><title>Movespan Contention Report</title><style>body{font:15px/1.5 system-ui,sans-serif;max-width:820px;margin:2rem auto;padding:0 1rem;color:#111}h1{margin-bottom:.25rem}table{border-collapse:collapse;width:100%;margin:1rem 0}td,th{border:1px solid #ddd;padding:.5rem;text-align:left}th{background:#f5f5f5}.rec{border-left:3px solid #333;padding:.25rem 1rem;margin:1rem 0;background:#fafafa}.note{color:#666;font-size:.85rem;margin-top:2rem}</style></head><body><h1>Movespan Contention Report</h1>");
    reveal_strlit("<p>Parallelizability <b>");
    reveal_strlit(
        " conflict edges</p><h2>Hotspots</h2><table><tr><th>Location</th><th>Deps</th><th>Blocked cost</th></tr>",
    );
    reveal_strlit(" conflict edges</p>");
    reveal_strlit(
        "<h2>Hotspots</h2><table><tr><th>Location</th><th>Deps</th><th>Blocked cost</th></tr>",
    );
    let pre = "<!doctype html><html lang=\"en\"><head><meta charset=\"utf-8\"><meta name=\"viewport\" content=\"width=device-width,initial-scale=1\"><title>Movespan Contention Report</title><style>body{font:15px/1.5 system-ui,sans-serif;max-width:820px;margin:2rem auto;padding:0 1rem;color:#111}h1{margin-bottom:.25rem}table{border-collapse:collapse;width:100%;margin:1rem 0}td,th{border:1px solid #ddd;padding:.5rem;text-align:left}th{background:#f5f5f5}.rec{border-left:3px solid #333;padding:.25rem 1rem;margin:1rem 0;background:#fafafa}.note{color:#666;font-size:.85rem;margin-top:2rem}</style></head><body><h1>Movespan Contention Report</h1>"@;
    let table = "<h2>Hotspots</h2><table><tr><th>Location</th><th>Deps</th><th>Blocked cost</th></tr>"@;
    assert(html_head() =~= pre + "<p>Parallelizability <b>"@);
    assert(" conflict edges</p><h2>Hotspots</h2><table><tr><th>Location</th><th>Deps</th><th>Blocked cost</th></tr>"@
        =~= " conflict edges</p>"@ + table);
    let needle = "<p>Parallelizability <b>"@ + escaped(f.parallelizability_pct@)
        + "%</b> &middot; estimated speedup <b>"@ + escaped(f.speedup@) + "x</b> of "@ + decimal(
        a.threads as nat,
    ) + "x ideal &middot; "@ + decimal(a.txn_count as nat) + " transactions &middot; "@ + decimal(
        a.conflict_edges as nat,
    ) + " conflict edges</p>"@;
    let rest = table + html_hotspots(a.hotspots@) + "</table><h2>Recommendations</h2>"@
        + suggestions_html(ss, f.suggestions@, f.speedup@, ss.len() as int) + "<p class=\"note\">"@
        + escaped(model_note()) + "</p></body></html>"@;
    assert(html_report(a, ss, f) =~= pre + needle + rest);
    lemma_contains_middle(pre, needle, rest);
}

} // verus!
