//! Benchmark runs: what a run file holds, and how its records are taken in.

use crate::result::Size;
use crate::strings;
use crate::text;
use vstd::prelude::*;

verus! {

/// What a run measures.
#[derive(Clone, Copy, Debug, PartialEq, Eq, Structural)]
pub enum Kind {
    Time,
    Size,
}

impl Kind {
    pub open spec fn text(self) -> Seq<char> {
        match self {
            Kind::Time => "time"@,
            Kind::Size => "size"@,
        }
    }

    pub fn as_str(self) -> (r: &'static str)
        ensures
            r@ == self.text(),
    {
        match self {
            Kind::Time => "time",
            Kind::Size => "size",
        }
    }
}

pub struct Metadata {
    pub version: u32,
    pub name: String,
    pub kind: Kind,
    pub trials: usize,
    pub created_unix_seconds: u64,
    pub machine: String,
    pub settings: String,
}

#[derive(Clone, Copy, Debug, PartialEq, Eq, Structural)]
pub struct Counts {
    pub variables: usize,
    pub linear_rows: usize,
    pub conic_rows: usize,
    pub a_nonzeros: usize,
    pub g_nonzeros: usize,
    pub p_nonzeros: usize,
}

impl Counts {
    pub open spec fn list(self) -> Seq<usize> {
        seq![
            self.variables,
            self.linear_rows,
            self.conic_rows,
            self.a_nonzeros,
            self.g_nonzeros,
            self.p_nonzeros,
        ]
    }

    pub fn from_size(s: Size) -> (r: Counts)
        ensures
            r.list() == seq![
                s.variables,
                s.linear_rows,
                s.conic_rows,
                s.a_nonzeros,
                s.g_nonzeros,
                s.p_nonzeros,
            ],
    {
        Counts {
            variables: s.variables,
            linear_rows: s.linear_rows,
            conic_rows: s.conic_rows,
            a_nonzeros: s.a_nonzeros,
            g_nonzeros: s.g_nonzeros,
            p_nonzeros: s.p_nonzeros,
        }
    }

    pub fn values(&self) -> (r: [usize; 6])
        ensures
            r@ == self.list(),
    {
        let r = [
            self.variables,
            self.linear_rows,
            self.conic_rows,
            self.a_nonzeros,
            self.g_nonzeros,
            self.p_nonzeros,
        ];
        assert(r@ =~= self.list());
        r
    }
}

/// One trial.
pub struct Measurement {
    /// Absent from size runs, which collect no timings.
    pub elapsed_ns: Option<u64>,
    pub outcome: String,
    pub before: Counts,
    pub after: Option<Counts>,
    pub time_limit_reached: bool,
}

impl Measurement {
    /// The outcome and both sizes agree.
    pub open spec fn agrees(&self, other: &Measurement) -> bool {
        &&& self.outcome@ == other.outcome@
        &&& self.before == other.before
        &&& self.after == other.after
    }

    pub fn same_result(&self, other: &Measurement) -> (r: bool)
        ensures
            r == self.agrees(other),
    {
        let after = match (&self.after, &other.after) {
            (Some(a), Some(b)) => *a == *b,
            (None, None) => true,
            _ => false,
        };
        strings::same(self.outcome.as_str(), other.outcome.as_str()) && self.before == other.before
            && after
    }
}

pub struct Case {
    pub input_hash: String,
    pub measurements: Vec<Measurement>,
    pub errors: Vec<String>,
}

/// One record of a run file.
pub enum Record {
    Header(Metadata),
    Case { id: String, result: Case },
    Complete,
}

/// A run: its cases in the order of their names.
pub struct Run {
    pub metadata: Metadata,
    pub cases: Vec<(String, Case)>,
    pub complete: bool,
}

/// Why a record cannot be taken in.
#[derive(Clone, Copy, Debug, PartialEq, Eq, Structural)]
pub enum LoadError {
    NoHeader,
    Inconsistent,
    AfterEnd,
    DuplicateCase,
    DuplicateHeader,
}

impl LoadError {
    pub open spec fn text(self) -> Seq<char> {
        match self {
            LoadError::NoHeader => "run file must begin with metadata"@,
            LoadError::Inconsistent => "unsupported or inconsistent run metadata"@,
            LoadError::AfterEnd => "unexpected data after the completed run"@,
            LoadError::DuplicateCase => "duplicate case in run file"@,
            LoadError::DuplicateHeader => "duplicate run metadata"@,
        }
    }

    pub fn message(self) -> (r: String)
        ensures
            r@ == self.text(),
    {
        strings::copy(
            match self {
                LoadError::NoHeader => "run file must begin with metadata",
                LoadError::Inconsistent => "unsupported or inconsistent run metadata",
                LoadError::AfterEnd => "unexpected data after the completed run",
                LoadError::DuplicateCase => "duplicate case in run file",
                LoadError::DuplicateHeader => "duplicate run metadata",
            },
        )
    }
}

/// The names of cases.
pub open spec fn ids(cases: Seq<(String, Case)>) -> Seq<Seq<char>> {
    Seq::new(cases.len(), |k: int| cases[k].0@)
}

impl Run {
    pub open spec fn wf(&self) -> bool {
        strings::ascending(ids(self.cases@))
    }

    /// Start a run with the first record of its file.
    pub fn begin(record: Record, kind: Kind, name: &str) -> (r: Result<Run, LoadError>)
        ensures
            match r {
                Ok(run) => {
                    &&& record == Record::Header(run.metadata)
                    &&& run.metadata.version == 1
                    &&& run.metadata.kind == kind
                    &&& run.metadata.name@ == name@
                    &&& run.metadata.trials != 0
                    &&& run.wf()
                    &&& run.cases@.len() == 0
                    &&& !run.complete
                },
                Err(e) => match record {
                    Record::Header(m) => e == LoadError::Inconsistent && (m.version != 1 || m.kind
                        != kind || m.name@ != name@ || m.trials == 0),
                    _ => e == LoadError::NoHeader,
                },
            },
    {
        match record {
            Record::Header(metadata) => {
                if metadata.version != 1 || metadata.kind != kind || !strings::same(
                    metadata.name.as_str(),
                    name,
                ) || metadata.trials == 0 {
                    return Err(LoadError::Inconsistent);
                }
                Ok(Run { metadata, cases: Vec::new(), complete: false })
            },
            _ => Err(LoadError::NoHeader),
        }
    }

    fn place(&self, id: &str) -> (r: (bool, usize))
        requires
            self.wf(),
        ensures
            r.1 <= self.cases@.len(),
            r.0 == ids(self.cases@).contains(id@),
            forall|k: int| 0 <= k < r.1 ==> strings::precedes(#[trigger] ids(self.cases@)[k], id@),
            r.0 ==> r.1 < self.cases@.len() && ids(self.cases@)[r.1 as int] == id@,
            !r.0 ==> forall|k: int|
                r.1 <= k < self.cases@.len() ==> strings::precedes(
                    id@,
                    #[trigger] ids(self.cases@)[k],
                ),
    {
        let mut names: Vec<String> = Vec::new();
        let mut k: usize = 0;
        while k < self.cases.len()
            invariant
                k <= self.cases@.len(),
                names@.len() == k,
                forall|i: int| 0 <= i < k ==> (#[trigger] names@[i])@ == self.cases@[i].0@,
            decreases self.cases@.len() - k,
        {
            names.push(strings::copy(self.cases[k].0.as_str()));
            k = k + 1;
        }
        assert(strings::strings(names@) =~= ids(self.cases@));
        strings::place(&names, id)
    }

    /// Take in a further record. Nothing may follow the record that completes
    /// the run, and no case may occur twice.
    pub fn accept(&mut self, record: Record) -> (r: Result<(), LoadError>)
        requires
            old(self).wf(),
        ensures
            final(self).wf(),
            final(self).metadata == old(self).metadata,
            match r {
                Ok(_) => !old(self).complete && match record {
                    Record::Header(_) => false,
                    Record::Complete => final(self).complete && final(self).cases == old(
                        self,
                    ).cases,
                    Record::Case { id, result } => {
                        &&& !final(self).complete
                        &&& !ids(old(self).cases@).contains(id@)
                        &&& exists|k: int|
                            0 <= k <= old(self).cases@.len() && final(self).cases@ == #[trigger] old(
                                self,
                            ).cases@.insert(k, (id, result))
                    },
                },
                Err(e) => *final(self) == *old(self) && e == (if old(self).complete {
                    LoadError::AfterEnd
                } else {
                    match record {
                        Record::Header(_) => LoadError::DuplicateHeader,
                        _ => LoadError::DuplicateCase,
                    }
                }) && (old(self).complete || match record {
                    Record::Header(_) => true,
                    Record::Complete => false,
                    Record::Case { id, result } => ids(old(self).cases@).contains(id@),
                }),
            },
    {
        if self.complete {
            return Err(LoadError::AfterEnd);
        }
        match record {
            Record::Header(_) => Err(LoadError::DuplicateHeader),
            Record::Complete => {
                self.complete = true;
                Ok(())
            },
            Record::Case { id, result } => {
                let (found, at): (bool, usize) = self.place(id.as_str());
                if found {
                    return Err(LoadError::DuplicateCase);
                }
                let ghost start = *self;
                let ghost before = ids(self.cases@);
                let ghost name = id@;
                self.cases.insert(at, (id, result));
                proof {
                    let after = ids(self.cases@);
                    assert(after =~= before.insert(at as int, name));
                    assert forall|i: int, j: int|
                        0 <= i < j < after.len() implies strings::precedes(
                        #[trigger] after[i],
                        #[trigger] after[j],
                    ) by {
                        if i != at {
                            assert(after[i] == before[if i < at {
                                i
                            } else {
                                i - 1
                            }]);
                        }
                        if j != at {
                            assert(after[j] == before[if j < at {
                                j
                            } else {
                                j - 1
                            }]);
                        }
                    }
                }
                Ok(())
            },
        }
    }
}

/// A letter or digit of ASCII, or one of `-`, `_` and `.`.
pub open spec fn plain_char(c: char) -> bool {
    ||| 'a' <= c <= 'z'
    ||| 'A' <= c <= 'Z'
    ||| '0' <= c <= '9'
    ||| c == '-'
    ||| c == '_'
    ||| c == '.'
}

/// Whether a run can have a name.
pub open spec fn valid_name(name: Seq<char>) -> bool {
    &&& name.len() > 0
    &&& name != "."@
    &&& name != ".."@
    &&& forall|k: int| 0 <= k < name.len() ==> plain_char(#[trigger] name[k])
}

fn is_plain(c: char) -> (r: bool)
    ensures
        r == plain_char(c),
{
    ('a' <= c && c <= 'z') || ('A' <= c && c <= 'Z') || ('0' <= c && c <= '9') || c == '-' || c
        == '_' || c == '.'
}

/// The file of a run below the root of all runs, or why the name will not do.
pub fn path(kind: Kind, name: &str) -> (r: Result<String, String>)
    ensures
        match r {
            Ok(p) => valid_name(name@) && p@ == kind.text() + "/"@ + name@ + ".jsonl"@,
            Err(e) => !valid_name(name@) && e@
                == "run names may contain only letters, numbers, '-', '_' and '.'"@,
        },
{
    let chars = text::to_chars(name);
    let mut valid = chars.len() > 0 && !text::is_word(&chars, ".") && !text::is_word(&chars, "..");
    let mut k: usize = 0;
    while k < chars.len()
        invariant
            k <= chars@.len(),
            chars@ == name@,
            valid == (chars@.len() > 0 && chars@ != "."@ && chars@ != ".."@ && forall|i: int|
                0 <= i < k ==> plain_char(#[trigger] chars@[i])),
        decreases chars@.len() - k,
    {
        if !is_plain(chars[k]) {
            assert(!plain_char(chars@[k as int]));
            valid = false;
        }
        k = k + 1;
    }
    if !valid {
        return Err(
            strings::copy("run names may contain only letters, numbers, '-', '_' and '.'"),
        );
    }
    let mut out = text::to_chars(kind.as_str());
    text::put(&mut out, "/");
    text::put_all(&mut out, &chars);
    text::put(&mut out, ".jsonl");
    Ok(text::to_text(&out))
}

/// A name with a separator never names a file.
pub proof fn names_stay_in_their_directory(name: Seq<char>)
    requires
        name.contains('/'),
    ensures
        !valid_name(name),
{
    let k = choose|k: int| 0 <= k < name.len() && name[k] == '/';
    assert(!plain_char(name[k]));
}

} // verus!
