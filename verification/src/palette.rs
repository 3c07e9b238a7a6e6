//! The command palette: a query matched against a fixed list of templates.
use vstd::prelude::*;
use crate::actions::UserAction;
use crate::text::{owned, str_contains, contains_seq};

verus! {

/// A match of the palette.
#[derive(Debug, PartialEq)]
pub struct SearchResult {
    pub label: String,
    pub action: UserAction,
}

/// The palette: its query, the matches, and the selected one.
#[derive(Debug, PartialEq)]
pub struct CommandPalette {
    pub query: String,
    pub results: Vec<SearchResult>,
    pub selected_idx: usize,
}

/// The text that `str::to_lowercase` gives.
pub uninterp spec fn lowercased(s: Seq<char>) -> Seq<char>;

/// Calls `str::to_lowercase`; the result is a function of the text.
#[verifier::external_body]
fn lower(s: &str) -> (r: String)
    ensures
        r@ == lowercased(s@),
{
    s.to_lowercase()
}

/// The templates: label, the name of the node, its kind (`true` for a
/// source, `false` for a processor), its channels.
pub open spec fn templates() -> Seq<(Seq<char>, Seq<char>, bool, u32)> {
    seq![
        ("Sine Oscillator"@, "Sine"@, true, 2u32),
        ("Noise"@, "Noise"@, true, 2u32),
        ("Gain / Amp"@, "Gain"@, false, 2u32),
        ("LPF (Biquad)"@, "Filter"@, false, 2u32),
        ("Compressor"@, "Compressor"@, false, 2u32),
        ("Delay"@, "Delay"@, false, 2u32),
        ("ADSR Envelope"@, "Envelope"@, false, 1u32),
    ]
}

/// Whether a template's label matches the query: it contains the query
/// (both lower-cased), or the query is an alias ("lpf" for filters, "vca"
/// for gains).
pub open spec fn label_matches(label: Seq<char>, query: Seq<char>) -> bool {
    let l = lowercased(label);
    let q = lowercased(query);
    contains_seq(l, q) || (q == "lpf"@ && contains_seq(l, "filter"@)) || (q == "vca"@ && contains_seq(l, "gain"@))
}

/// The action of a template.
pub open spec fn template_action(a: UserAction, t: (Seq<char>, Seq<char>, bool, u32)) -> bool {
    if t.2 {
        a matches UserAction::AddSource { name, channels } && name@ == t.1 && channels == t.3
    } else {
        a matches UserAction::AddProcessor { name, channels } && name@ == t.1 && channels == t.3
    }
}

/// The matching templates, in list order.
pub open spec fn matching(ts: Seq<(Seq<char>, Seq<char>, bool, u32)>, query: Seq<char>) -> Seq<(Seq<char>, Seq<char>, bool, u32)>
    decreases ts.len(),
{
    if ts.len() == 0 {
        Seq::empty()
    } else if label_matches(ts.last().0, query) {
        matching(ts.drop_last(), query).push(ts.last())
    } else {
        matching(ts.drop_last(), query)
    }
}

/// Whether results are the given templates, in order.
pub open spec fn results_are(rs: Seq<SearchResult>, ts: Seq<(Seq<char>, Seq<char>, bool, u32)>) -> bool {
    &&& rs.len() == ts.len()
    &&& forall|i: int| 0 <= i < rs.len() ==> #[trigger] rs[i].label@ == ts[i].0 && template_action(rs[i].action, ts[i])
}

fn template(i: usize) -> (r: (String, UserAction))
    requires
        i < 7,
    ensures
        r.0@ == templates()[i as int].0,
        template_action(r.1, templates()[i as int]),
{
    match i {
        0 => (owned("Sine Oscillator"), UserAction::AddSource { name: owned("Sine"), channels: 2 }),
        1 => (owned("Noise"), UserAction::AddSource { name: owned("Noise"), channels: 2 }),
        2 => (owned("Gain / Amp"), UserAction::AddProcessor { name: owned("Gain"), channels: 2 }),
        3 => (owned("LPF (Biquad)"), UserAction::AddProcessor { name: owned("Filter"), channels: 2 }),
        4 => (owned("Compressor"), UserAction::AddProcessor { name: owned("Compressor"), channels: 2 }),
        5 => (owned("Delay"), UserAction::AddProcessor { name: owned("Delay"), channels: 2 }),
        _ => (owned("ADSR Envelope"), UserAction::AddProcessor { name: owned("Envelope"), channels: 1 }),
    }
}

impl CommandPalette {
    /// An empty palette.
    pub fn new() -> (r: Self)
        ensures
            r.query@ == Seq::<char>::empty(),
            r.results@.len() == 0,
            r.selected_idx == 0,
    {
        CommandPalette { query: String::new(), results: Vec::new(), selected_idx: 0 }
    }

    /// Recomputes the matches of the query; a selection past the end goes
    /// back to the first match.
    pub fn update_search(&mut self)
        ensures
            final(self).query == old(self).query,
            results_are(final(self).results@, matching(templates(), old(self).query@)),
            final(self).selected_idx == if old(self).selected_idx >= matching(templates(), old(self).query@).len() {
                0
            } else {
                old(self).selected_idx
            },
    {
        let ghost ts = templates();
        let ghost q0 = self.query@;
        let query = lower(self.query.as_str());
        let mut results: Vec<SearchResult> = Vec::new();
        let mut i: usize = 0;
        proof {
            assert(ts.take(0) =~= Seq::<(Seq<char>, Seq<char>, bool, u32)>::empty());
        }
        while i < 7
            invariant
                ts == templates(),
                ts.len() == 7,
                i <= 7,
                query@ == lowercased(q0),
                results_are(results@, matching(ts.take(i as int), q0)),
            decreases 7 - i,
        {
            let (label, action) = template(i);
            let l = lower(label.as_str());
            let keep = str_contains(l.as_str(), query.as_str()) || (eq_text(query.as_str(), "lpf") && str_contains(l.as_str(), "filter"))
                || (eq_text(query.as_str(), "vca") && str_contains(l.as_str(), "gain"));
            proof {
                assert(ts.take(i + 1).drop_last() =~= ts.take(i as int));
                assert(ts.take(i + 1).last() == ts[i as int]);
                assert(keep == label_matches(ts[i as int].0, q0));
                let m0 = matching(ts.take(i as int), q0);
                assert(matching(ts.take(i + 1), q0) == if keep { m0.push(ts[i as int]) } else { m0 });
            }
            let ghost before = results@;
            let ghost t = ts[i as int];
            if keep {
                let r = SearchResult { label, action };
                assert(r.label@ == t.0 && template_action(r.action, t));
                results.push(r);
                assert(results@ == before.push(r));
                proof {
                    assert forall|j: int| 0 <= j < results@.len() implies #[trigger] results@[j].label@ == matching(ts.take(i + 1), q0)[j].0
                        && template_action(results@[j].action, matching(ts.take(i + 1), q0)[j]) by {
                        let m0 = matching(ts.take(i as int), q0);
                        if j < before.len() {
                            assert(results@[j] == before[j]);
                            assert(matching(ts.take(i + 1), q0)[j] == m0[j]);
                        } else {
                            assert(results@[j] == r);
                            assert(matching(ts.take(i + 1), q0)[j] == ts[i as int]);
                        }
                    }
                }
            }
            i += 1;
        }
        proof {
            assert(ts.take(7) =~= ts);
        }
        self.results = results;
        if self.selected_idx >= self.results.len() {
            self.selected_idx = 0;
        }
    }
}

fn eq_text(a: &str, b: &str) -> (r: bool)
    ensures
        r == (a@ == b@),
{
    crate::text::key_equal(a, b)
}

} // verus!
