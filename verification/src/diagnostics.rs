//! Structured diagnostics produced while compiling a transformer program.
//!
//! A diagnostic locates a problem by the offending rule (name and declaration
//! index) or top-level element, and says what is wrong with it.

use vstd::prelude::*;
use crate::text::{decimal, decimal_string};

verus! {

/// Where a diagnostic originates within a program.
#[derive(Debug, Clone, PartialEq, Eq)]
pub enum Location {
    /// The problem concerns the program as a whole (for example, no rules).
    Program,
    /// The problem concerns a specific top-level element by index.
    TopLevel { index: usize },
    /// The problem concerns a rule identified by declaration order and name.
    Rule { index: usize, name: Option<String> },
}

/// The mathematical value of a [`Location`].
pub enum LocationV {
    Program,
    TopLevel { index: usize },
    Rule { index: usize, name: Option<Seq<char>> },
}

impl View for Location {
    type V = LocationV;

    open spec fn view(&self) -> LocationV {
        match self {
            Location::Program => LocationV::Program,
            Location::TopLevel { index } => LocationV::TopLevel { index: *index },
            Location::Rule { index, name } => LocationV::Rule {
                index: *index,
                name: match name {
                    Some(n) => Some(n@),
                    None => None,
                },
            },
        }
    }
}

/// Whether a location's 1-based number fits in a `usize`.
pub open spec fn location_printable(l: LocationV) -> bool {
    match l {
        LocationV::Program => true,
        LocationV::TopLevel { index } => index < usize::MAX,
        LocationV::Rule { index, .. } => index < usize::MAX,
    }
}

/// How a location is written in a message.
pub open spec fn location_text(l: LocationV) -> Seq<char> {
    match l {
        LocationV::Program => "program"@,
        LocationV::TopLevel { index } => "top-level element #"@ + decimal((index + 1) as nat),
        LocationV::Rule { index, name } => match name {
            Some(name) => "rule #"@ + decimal((index + 1) as nat) + " ('"@ + name + "')"@,
            None => "rule #"@ + decimal((index + 1) as nat),
        },
    }
}

impl Location {
    /// How the location is written in a message, for example `rule #2 ('swap')`.
    pub fn to_string(&self) -> (r: String)
        requires
            location_printable(self@),
        ensures
            r@ == location_text(self@),
    {
        match self {
            Location::Program => String::from_str("program"),
            Location::TopLevel { index } => {
                let mut s = String::from_str("top-level element #");
                s.append(decimal_string((*index as u64) + 1).as_str());
                s
            },
            Location::Rule { index, name } => {
                let mut s = String::from_str("rule #");
                s.append(decimal_string((*index as u64) + 1).as_str());
                match name {
                    Some(name) => {
                        s.append(" ('");
                        s.append(name.as_str());
                        s.append("')");
                    },
                    None => {},
                }
                s
            },
        }
    }
}

/// A single compile-time diagnostic with an actionable message.
#[derive(Debug, Clone, PartialEq, Eq)]
pub struct Diagnostic {
    pub location: Location,
    pub message: String,
}

/// The mathematical value of a [`Diagnostic`].
pub struct DiagnosticV {
    pub location: LocationV,
    pub message: Seq<char>,
}

impl View for Diagnostic {
    type V = DiagnosticV;

    open spec fn view(&self) -> DiagnosticV {
        DiagnosticV { location: self.location@, message: self.message@ }
    }
}

/// How a diagnostic is written: its location, a colon and its message.
pub open spec fn diagnostic_text(d: DiagnosticV) -> Seq<char> {
    location_text(d.location) + ": "@ + d.message
}

impl Diagnostic {
    pub fn new(location: Location, message: String) -> (r: Diagnostic)
        ensures
            r@ == (DiagnosticV { location: location@, message: message@ }),
    {
        Diagnostic { location, message }
    }

    /// How the diagnostic is written: its location, a colon and its message.
    pub fn to_string(&self) -> (r: String)
        requires
            location_printable(self@.location),
        ensures
            r@ == diagnostic_text(self@),
    {
        let mut s = self.location.to_string();
        s.append(": ");
        s.append(self.message.as_str());
        s
    }
}

/// A collection of diagnostics returned when a program fails to compile.
#[derive(Debug, Clone, PartialEq, Eq)]
pub struct Diagnostics {
    pub items: Vec<Diagnostic>,
}

impl View for Diagnostics {
    type V = Seq<DiagnosticV>;

    open spec fn view(&self) -> Seq<DiagnosticV> {
        self.items@.map_values(|d: Diagnostic| d@)
    }
}

/// The diagnostics, one per line.
pub open spec fn diagnostics_text(ds: Seq<DiagnosticV>) -> Seq<char>
    decreases ds.len(),
{
    if ds.len() == 0 {
        Seq::empty()
    } else if ds.len() == 1 {
        diagnostic_text(ds[0])
    } else {
        diagnostics_text(ds.drop_last()) + "\n"@ + diagnostic_text(ds.last())
    }
}

impl Default for Diagnostics {
    fn default() -> (r: Self)
        ensures
            r@ == Seq::<DiagnosticV>::empty(),
    {
        Diagnostics::new()
    }
}

impl Diagnostics {
    pub fn new() -> (r: Diagnostics)
        ensures
            r@ == Seq::<DiagnosticV>::empty(),
    {
        let r = Diagnostics { items: Vec::new() };
        assert(r@ =~= Seq::<DiagnosticV>::empty());
        r
    }

    pub fn push(&mut self, diagnostic: Diagnostic)
        ensures
            final(self)@ == old(self)@.push(diagnostic@),
    {
        self.items.push(diagnostic);
        assert(self@ =~= old(self)@.push(diagnostic@));
    }

    pub fn is_empty(&self) -> (r: bool)
        ensures
            r == (self@.len() == 0),
    {
        self.items.len() == 0
    }

    pub fn len(&self) -> (r: usize)
        ensures
            r == self@.len(),
    {
        self.items.len()
    }

    /// The diagnostics, one per line.
    pub fn to_string(&self) -> (r: String)
        requires
            forall|i: int| 0 <= i < self@.len() ==> location_printable(#[trigger] self@[i].location),
        ensures
            r@ == diagnostics_text(self@),
    {
        let mut s = String::new();
        let mut i: usize = 0;
        while i < self.items.len()
            invariant
                0 <= i <= self.items.len(),
                forall|k: int| 0 <= k < self@.len() ==> location_printable(#[trigger] self@[k].location),
                s@ == diagnostics_text(self@.take(i as int)),
            decreases self.items.len() - i,
        {
            assert(self@[i as int] == self.items@[i as int]@);
            if i > 0 {
                s.append("\n");
            }
            let line = self.items[i].to_string();
            s.append(line.as_str());
            proof {
                let t = self@.take(i + 1);
                assert(t.drop_last() =~= self@.take(i as int));
                if i == 0 {
                    assert(s@ =~= diagnostic_text(t[0]));
                }
            }
            i = i + 1;
        }
        assert(self@.take(self.items.len() as int) =~= self@);
        s
    }
}

} // verus!
