//! NDJSON event sink: one JSON object per line, to stdout/stderr/a file, or off. Suitable
//! for shipping into Loki, Elasticsearch, or any log pipeline.

use vstd::prelude::*;

use crate::text;
use crate::types::L4Event;

verus! {

/// Where event lines go.
#[derive(Clone, Debug)]
pub enum JsonSink {
    Off,
    Stdout,
    Stderr,
    /// Appended to the file at a path.
    File(String),
}

/// A [`JsonSink`] with the text of its path.
pub ghost enum SinkView {
    Off,
    Stdout,
    Stderr,
    File(Seq<char>),
}

impl View for JsonSink {
    type V = SinkView;

    open spec fn view(&self) -> SinkView {
        match *self {
            JsonSink::Off => SinkView::Off,
            JsonSink::Stdout => SinkView::Stdout,
            JsonSink::Stderr => SinkView::Stderr,
            JsonSink::File(path) => SinkView::File(path@),
        }
    }
}

/// The sink that a configuration names: "", "stdout", "stderr", or a file path.
pub open spec fn sink_value(target: Seq<char>) -> SinkView {
    let t = text::trimmed(target);
    if t.len() == 0 || t == "off"@ || t == "none"@ {
        SinkView::Off
    } else if t == "stdout"@ {
        SinkView::Stdout
    } else if t == "stderr"@ {
        SinkView::Stderr
    } else {
        SinkView::File(t)
    }
}

impl JsonSink {
    /// Build from the config string: "", "stdout", "stderr", or a file path.
    pub fn from_target(target: &str) -> (r: JsonSink)
        ensures
            r@ == sink_value(target@),
    {
        let chars = text::chars_of(target);
        let t = text::trim(chars.as_slice());
        if t.len() == 0 || text::text_is(t, "off") || text::text_is(t, "none") {
            JsonSink::Off
        } else if text::text_is(t, "stdout") {
            JsonSink::Stdout
        } else if text::text_is(t, "stderr") {
            JsonSink::Stderr
        } else {
            JsonSink::File(text::string_of(t))
        }
    }

    /// The line to write for an event; none where the sink is off.
    pub fn line(&self, ev: &L4Event) -> (r: Option<String>)
        ensures
            match r {
                Some(s) => !(self@ is Off) && s@ == ev@.json() + "\n"@,
                None => self@ is Off,
            },
    {
        match self {
            JsonSink::Off => None,
            _ => {
                let mut s = ev.to_json();
                s.append("\n");
                Some(s)
            },
        }
    }
}

} // verus!
