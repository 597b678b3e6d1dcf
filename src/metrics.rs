//! The metrics a treemap can show, and the names they are selected by.

use vstd::prelude::*;

use crate::text::chars_of;

verus! {

/// The weight that a treemap shows.
#[derive(Clone, Copy, Debug, PartialEq, Eq, Structural)]
pub enum Metrics {
    BytesPerFile,
    ChurnPerFile,
    LinesPerFile,
    WordMentions,
}

/// The names a metric is selected by, long and short, in this order.
pub open spec fn metric_names_spec() -> Seq<Seq<char>> {
    seq![
        "bytes-per-file"@,
        "b"@,
        "churn-per-file"@,
        "c"@,
        "lines-per-file"@,
        "l"@,
        "word-mentions"@,
        "w"@,
    ]
}

/// The metric that `name` selects.
pub open spec fn metric_named(name: Seq<char>) -> Option<Metrics> {
    if name == "bytes-per-file"@ || name == "b"@ {
        Some(Metrics::BytesPerFile)
    } else if name == "churn-per-file"@ || name == "c"@ {
        Some(Metrics::ChurnPerFile)
    } else if name == "lines-per-file"@ || name == "l"@ {
        Some(Metrics::LinesPerFile)
    } else if name == "word-mentions"@ || name == "w"@ {
        Some(Metrics::WordMentions)
    } else {
        None
    }
}

/// Whether two texts hold the same characters.
pub fn same_text(a: &str, b: &str) -> (r: bool)
    ensures
        r == (a@ == b@),
{
    let x = chars_of(a);
    let y = chars_of(b);
    if x.len() != y.len() {
        return false;
    }
    let mut i: usize = 0;
    while i < x.len()
        invariant
            x@ == a@,
            y@ == b@,
            x@.len() == y@.len(),
            i <= x@.len(),
            x@.subrange(0, i as int) == y@.subrange(0, i as int),
        decreases x@.len() - i,
    {
        if x[i] != y[i] {
            assert(x@[i as int] != y@[i as int]);
            return false;
        }
        assert(x@.subrange(0, i + 1) =~= y@.subrange(0, i + 1));
        i = i + 1;
    }
    assert(x@ =~= x@.subrange(0, i as int));
    assert(y@ =~= y@.subrange(0, i as int));
    true
}

impl Metrics {
    /// The metric selected by a long or a short name.
    pub fn from_str(s: &str) -> (r: Option<Metrics>)
        ensures
            r == metric_named(s@),
    {
        if same_text(s, "bytes-per-file") || same_text(s, "b") {
            Some(Metrics::BytesPerFile)
        } else if same_text(s, "churn-per-file") || same_text(s, "c") {
            Some(Metrics::ChurnPerFile)
        } else if same_text(s, "lines-per-file") || same_text(s, "l") {
            Some(Metrics::LinesPerFile)
        } else if same_text(s, "word-mentions") || same_text(s, "w") {
            Some(Metrics::WordMentions)
        } else {
            None
        }
    }

    /// Every name a metric can be selected by.
    pub fn metric_names() -> (r: Vec<&'static str>)
        ensures
            r@.map_values(|s: &str| s@) == metric_names_spec(),
    {
        let r = vec![
            "bytes-per-file",
            "b",
            "churn-per-file",
            "c",
            "lines-per-file",
            "l",
            "word-mentions",
            "w",
        ];
        assert(r@.map_values(|s: &str| s@) =~= metric_names_spec());
        r
    }
}

} // verus!
