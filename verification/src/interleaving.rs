//! A framer may be fed, drained and compacted in any order.
//!
//! What is stated here holds of a framer between any two calls, so it holds
//! whatever calls have been made, in whatever order, as long as none has failed.

use vstd::prelude::*;

use crate::chunking::{
    drain, first_session, lemma_drain_behind, lemma_drain_resume, lemma_one_chunk, Drained,
};
use crate::equivalence::{
    law_streaming_finds_the_scanned_records, law_without_a_doctype_openings_are_alike, opens_alike,
    without_doctype,
};
use crate::framer::{first_machine, run, StreamFramer};
use crate::grammar::{root_bytes, scan};
use crate::growth::{extends, law_opening_is_settled};
use crate::prolog::{arriving_opening, lemma_arriving_opening};

verus! {

/// What the records of `d` come to when they are framed as they arrive.
proof fn lemma_drains_to_the_scanned_records(d: Seq<u8>, path: Seq<Seq<u8>>)
    requires
        scan(d, path) is Ok,
        opens_alike(d),
    ensures
        ({
            let o = arriving_opening(d)->Done_0;
            let f = scan(d, path)->Ok_0;
            &&& drain(d, path, root_bytes(o), first_machine(o, 0), o.content_start, Seq::empty())
                matches Drained::Paused(records, m, _)
            &&& records == f.records
            &&& m.frame.done
            &&& m.frame.namespaces == f.context.namespaces
            &&& o.context.root_name == f.context.root_name
        }),
{
    lemma_one_chunk(d, path);
    law_streaming_finds_the_scanned_records(seq![d], path);
    assert(first_session().arrived + d =~= d);
}

impl StreamFramer {
    /// While a document that the scan accepts arrives, in chunks of any size, no
    /// call fails, and what has been emitted is the beginning of what the scan
    /// finds. `d` is the whole document.
    pub proof fn law_emitted_records_begin_the_scanned_ones(&self, d: Seq<u8>)
        requires
            self.ready(),
            extends(self.arrived(), d),
            scan(d, self.path()) is Ok,
            opens_alike(d),
        ensures
            self.context() is None ==> !(arriving_opening(self.arrived()) is Bad),
            self.context() is Some ==> !(run(
                self.arrived(),
                self.path(),
                self.root(),
                self.machine(),
                self.position(),
            ) is Fail),
            ({
                let all = (scan(d, self.path())->Ok_0).records;
                self.records().len() <= all.len() && self.records() == all.take(
                    self.records().len() as int,
                )
            }),
    {
        let h = self.arrived();
        let path = self.path();
        let all = (scan(d, path)->Ok_0).records;
        let none = Seq::<(int, int)>::empty();
        self.lemma_on_track();
        if self.context() is None {
            if arriving_opening(h) is Bad {
                law_opening_is_settled(h, d);
            }
            assert(self.records() =~= all.take(0));
        } else {
            let o = arriving_opening(h)->Done_0;
            let (m, i) = (self.machine(), self.position());
            law_opening_is_settled(h, d);
            lemma_arriving_opening(h);
            lemma_drains_to_the_scanned_records(d, path);
            lemma_drain_resume(h, d, path, self.root(), m, i, self.records());
            lemma_drain_resume(
                h,
                d,
                path,
                self.root(),
                first_machine(o, 0),
                o.content_start,
                none,
            );
            lemma_drain_behind(d, path, self.root(), m, i, self.records(), none);
            assert(self.records() + none =~= self.records());
            assert(self.records() =~= all.take(self.records().len() as int));
        }
    }

    /// Once a document that the scan accepts has arrived whole and no further
    /// record is complete, the records emitted are those that the scan finds, in
    /// the same order, the root has closed, and the context has the scanned
    /// document's root name and namespaces.
    pub proof fn law_emitted_records_are_the_scanned_ones(&self)
        requires
            self.ready(),
            self.context() is Some,
            self.waiting(),
            scan(self.arrived(), self.path()) is Ok,
            opens_alike(self.arrived()),
        ensures
            ({
                let f = scan(self.arrived(), self.path())->Ok_0;
                &&& self.records() == f.records
                &&& self.machine().frame.done
                &&& self.context() matches Some(c)
                &&& c.root_name == f.context.root_name
                &&& c.namespaces == f.context.namespaces
            }),
    {
        self.lemma_on_track();
        lemma_drains_to_the_scanned_records(self.arrived(), self.path());
    }

    /// The same for a document without a DOCTYPE: the whole context is the one
    /// that the scan finds.
    pub proof fn law_without_a_doctype_the_context_is_the_scanned_one(&self)
        requires
            self.ready(),
            self.context() is Some,
            self.waiting(),
            scan(self.arrived(), self.path()) is Ok,
            without_doctype(self.arrived()),
        ensures
            ({
                let f = scan(self.arrived(), self.path())->Ok_0;
                &&& self.records() == f.records
                &&& self.machine().frame.done
                &&& self.context() == Some(f.context)
            }),
    {
        self.lemma_on_track();
        law_without_a_doctype_openings_are_alike(self.arrived());
        self.law_emitted_records_are_the_scanned_ones();
    }
}

} // verus!
