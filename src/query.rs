//! The query builder: statements and bound parameters, turned into one request.
use crate::binding::{fields_bound, AppendBinding, BindingMap, QueryBindings};
use crate::surql::{parse_statements, statements_of};
use crate::value::{Error, Value};
use vstd::prelude::*;

verus! {

/// What stands between two statements of a program.
pub open spec fn separator() -> Seq<char> {
    seq![';', '\n']
}

/// The program text of `stmts`: the statements in order, separated by
/// `";\n"`.
pub open spec fn program_text(stmts: Seq<Seq<char>>) -> Seq<char>
    decreases stmts.len(),
{
    if stmts.len() == 0 {
        Seq::empty()
    } else if stmts.len() == 1 {
        stmts[0]
    } else {
        program_text(stmts.drop_last()) + separator() + stmts.last()
    }
}

/// Statements added by a later call come after those of an earlier one: the
/// program of `first` then `second` is the program of `first`, a separator,
/// and the program of `second`.
pub proof fn program_keeps_call_order(first: Seq<Seq<char>>, second: Seq<Seq<char>>)
    requires
        first.len() > 0,
        second.len() > 0,
    ensures
        program_text(first + second) == program_text(first) + separator() + program_text(second),
    decreases second.len(),
{
    let both = first + second;
    if second.len() == 1 {
        assert(both.drop_last() =~= first);
    } else {
        let d = second.drop_last();
        assert(both.drop_last() =~= first + d);
        program_keeps_call_order(first, d);
        assert(program_text(both) =~= program_text(first) + separator() + program_text(second));
    }
}

/// The one request a query turns into.
#[derive(Debug)]
pub struct QueryRequest {
    /// The text of every statement, in the order they were added.
    pub program: String,
    /// The parameters, one value per name.
    pub bindings: BindingMap,
}

/// A query being assembled: statements, bound parameters, and whether some
/// text handed to it failed to parse.
#[derive(Debug)]
pub struct Query {
    statements: Vec<String>,
    failed: bool,
    bindings: BindingMap,
}

impl Query {
    /// The text of each statement added so far, in order.
    pub closed spec fn statements(&self) -> Seq<Seq<char>> {
        self.statements@.map_values(|s: String| s@)
    }

    /// Some text handed to `query` did not parse.
    pub closed spec fn failed(&self) -> bool {
        self.failed
    }

    /// The parameters bound so far.
    pub closed spec fn bindings(&self) -> Map<Seq<char>, Value> {
        self.bindings@
    }

    pub closed spec fn wf(&self) -> bool {
        self.bindings.wf()
    }

    /// A query with no statements and no parameters.
    pub fn new() -> (r: Query)
        ensures
            r.wf(),
            r.statements() == Seq::<Seq<char>>::empty(),
            !r.failed(),
            r.bindings() == Map::<Seq<char>, Value>::empty(),
    {
        Query { statements: Vec::new(), failed: false, bindings: BindingMap::new() }
    }

    /// Records what the parser made of one piece of text: its statements,
    /// after those added before, or a failure that `into_request` reports.
    pub fn push_parsed(self, parsed: Result<Vec<String>, Error>) -> (r: Query)
        requires
            self.wf(),
        ensures
            r.wf(),
            r.bindings() == self.bindings(),
            parsed is Ok ==> r.statements() == self.statements() + parsed->Ok_0@.map_values(
                |s: String| s@,
            ) && r.failed() == self.failed(),
            parsed is Err ==> r.statements() == self.statements() && r.failed(),
    {
        let mut q = self;
        match parsed {
            Ok(stmts) => {
                let ghost before = q.statements@;
                let ghost added = stmts@;
                let mut stmts = stmts;
                q.statements.append(&mut stmts);
                proof {
                    assert(q.statements@ == before + added);
                    assert(q.statements@.map_values(|s: String| s@) =~= before.map_values(
                        |s: String| s@,
                    ) + added.map_values(|s: String| s@));
                }
            },
            Err(_) => {
                q.failed = true;
            },
        }
        q
    }

    /// Adds the statements of `text`, after those added before.
    pub fn query(self, text: &str) -> (r: Query)
        requires
            self.wf(),
        ensures
            r.wf(),
            r.bindings() == self.bindings(),
            statements_of(text@) matches Some(ss) ==> r.statements() == self.statements() + ss
                && r.failed() == self.failed(),
            statements_of(text@) is None ==> r.statements() == self.statements() && r.failed(),
    {
        let parsed = match parse_statements(text) {
            Ok(stmts) => Ok(stmts),
            Err(_) => Err(Error::Parse),
        };
        self.push_parsed(parsed)
    }

    /// Binds `v` into the parameters; refused where `v` asks to decompose a
    /// value that is not an object.
    pub fn bind<B: AppendBinding>(self, v: B) -> (r: Result<Query, Error>)
        requires
            self.wf(),
            v.binding_wf(),
        ensures
            r is Err <==> v.refused(),
            r is Err ==> r == Err::<Query, Error>(Error::UnsupportedShape),
            r matches Ok(q) ==> q.wf() && q.statements() == self.statements() && q.failed()
                == self.failed() && v.bound(self.bindings(), q.bindings()),
    {
        let mut q = self;
        match v.append_binding(&mut q.bindings) {
            Ok(()) => Ok(q),
            Err(e) => Err(e),
        }
    }

    /// Merges `o` into the parameters, its values winning.
    pub fn bindtwo(self, o: QueryBindings) -> (r: Query)
        requires
            self.wf(),
            o.wf(),
        ensures
            r.wf(),
            r.statements() == self.statements(),
            r.failed() == self.failed(),
            r.bindings() == self.bindings().union_prefer_right(o@),
    {
        let mut q = self;
        q.bindings.append(o.into_map());
        q
    }

    /// Binds each field of the object `o` under its name; refused where `o`
    /// is not an object.
    pub fn bind_object(self, o: Value) -> (r: Result<Query, Error>)
        requires
            self.wf(),
        ensures
            r is Ok <==> o is Object,
            r is Err ==> r == Err::<Query, Error>(Error::UnsupportedShape),
            r matches Ok(q) ==> q.wf() && q.statements() == self.statements() && q.failed()
                == self.failed() && (o matches Value::Object(fields) && fields_bound(
                self.bindings(),
                fields@,
                q.bindings(),
            )),
    {
        match o {
            Value::Object(fields) => {
                let mut q = self;
                q.bindings.insert_fields(fields);
                Ok(q)
            },
            _ => Err(Error::UnsupportedShape),
        }
    }

    /// The request: every statement's text in order, and the parameters.
    /// Fails, with nothing to send, where some text did not parse.
    pub fn into_request(self) -> (r: Result<QueryRequest, Error>)
        requires
            self.wf(),
        ensures
            r is Err <==> self.failed(),
            r is Err ==> r == Err::<QueryRequest, Error>(Error::Parse),
            r matches Ok(req) ==> req.bindings.wf() && req.program@ == program_text(
                self.statements(),
            ) && req.bindings@ == self.bindings(),
    {
        if self.failed {
            return Err(Error::Parse);
        }
        let ghost stmts = self.statements();
        let mut program = String::new();
        let mut i: usize = 0;
        while i < self.statements.len()
            invariant
                stmts == self.statements@.map_values(|s: String| s@),
                0 <= i <= stmts.len(),
                program@ == program_text(stmts.take(i as int)),
            decreases stmts.len() - i,
        {
            if i > 0 {
                program.append(";\n");
            }
            program.append(self.statements[i].as_str());
            proof {
                let cur = stmts.take(i + 1);
                assert(cur.drop_last() =~= stmts.take(i as int));
                if i == 0 {
                    assert(program@ =~= cur[0]);
                } else {
                    reveal_strlit(";\n");
                    assert(program@ =~= program_text(cur));
                }
            }
            i += 1;
        }
        proof {
            assert(stmts.take(i as int) =~= stmts);
        }
        Ok(QueryRequest { program, bindings: self.bindings })
    }
}

} // verus!
