use vstd::prelude::*;
use vstd::string::StringExecFns;

verus! {

/// One ERROR line as it is flushed to the log sink.
pub open spec fn error_line(name: Seq<char>, msg: Seq<char>) -> Seq<char> {
    "ERROR: "@ + name + ": "@ + msg
}

/// An append-only log kept by the component that writes it; the host flushes
/// the collected lines to the process-wide sink.
pub struct Logger {
    pub name: String,
    pub entries: Vec<String>,
}

impl Logger {
    pub fn new(name: &str) -> (r: Logger)
        ensures
            r.name@ == name@,
            r.entries.deep_view() == Seq::<Seq<char>>::empty(),
    {
        let r = Logger { name: String::from_str(name), entries: Vec::new() };
        proof {
            assert(r.entries.deep_view() =~= Seq::<Seq<char>>::empty());
        }
        r
    }

    /// Records one line in the form `ERROR: <name>: <msg>`.
    pub fn error(&mut self, msg: String)
        ensures
            final(self).name == old(self).name,
            final(self).entries.deep_view() == old(self).entries.deep_view().push(
                error_line(old(self).name@, msg@),
            ),
    {
        let mut line = String::from_str("ERROR: ");
        line.append(self.name.as_str());
        line.append(": ");
        line.append(msg.as_str());
        let ghost prev = self.entries.deep_view();
        self.entries.push(line);
        proof {
            assert(line@ =~= error_line(self.name@, msg@));
            assert(self.entries.deep_view() =~= prev.push(line@));
        }
    }
}

} // verus!
