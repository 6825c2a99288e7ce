//! A service: the compiled field set of one site's configuration, with the
//! request headers that its fetches carry.

use vstd::prelude::*;

use crate::error::ErrorKind;
use crate::error::ScrapeError;
use crate::field::EvalV;
use crate::field::Field;
use crate::field::FieldV;
use crate::field::LineOutcome;
use crate::field::fields_outcome;
use crate::field::spec_eval;
use crate::field::spec_split_lines;

verus! {

/// The mathematical value of a service: its rules and its request
/// configuration pairs.
pub struct ServiceV {
    pub fields: Seq<FieldV>,
    pub config: Seq<(Seq<char>, Seq<char>)>,
}

/// One site's compiled extraction rules, with the request configuration
/// (header names and values, and the request method) that its fetches use.
pub struct Service {
    fields: Vec<Field>,
    config: Vec<(String, String)>,
}

impl View for Service {
    type V = ServiceV;

    closed spec fn view(&self) -> ServiceV {
        ServiceV {
            fields: self.fields@.map_values(|f: Field| f@),
            config: self.config.deep_view(),
        }
    }
}

/// What processing a document against a sequence of rules yields: one
/// name-value pair per rule whose field is present, in rule order; an absent
/// field is skipped; the first rule short of matches fails the whole
/// document.
pub open spec fn process_outcome(fields: Seq<FieldV>, doc: Seq<char>) -> Result<
    Seq<(Seq<char>, Seq<char>)>,
    (),
>
    decreases fields.len(),
{
    if fields.len() == 0 {
        Ok(Seq::empty())
    } else {
        match spec_eval(fields[0].target, doc, fields[0].selector) {
            EvalV::Val(s) => match process_outcome(fields.drop_first(), doc) {
                Ok(rest) => Ok(seq![(fields[0].name, s)] + rest),
                Err(e) => Err(e),
            },
            EvalV::Missing => process_outcome(fields.drop_first(), doc),
            EvalV::Insufficient => Err(()),
        }
    }
}

impl Service {
    /// A service from parsed fields and request configuration pairs.
    pub fn new(fields: Vec<Field>, config: Vec<(String, String)>) -> (r: Service)
        ensures
            r@.fields == fields@.map_values(|f: Field| f@),
            r@.config == config.deep_view(),
    {
        Service { fields, config }
    }

    /// A service parsed from a field-definition block, with the given request
    /// configuration pairs.
    pub fn from_config(fields_text: &str, config: Vec<(String, String)>) -> (r: Result<
        Service,
        ScrapeError,
    >)
        ensures
            r matches Ok(service) ==> {
                &&& fields_outcome(spec_split_lines(fields_text@)) == Ok::<
                    Seq<FieldV>,
                    LineOutcome,
                >(service@.fields)
                &&& service@.config == config.deep_view()
            },
            r is Err ==> fields_outcome(spec_split_lines(fields_text@)) is Err,
    {
        let fields = Field::parse(fields_text)?;
        Ok(Service { fields, config })
    }

    /// The service's request configuration pairs.
    pub fn config(&self) -> (r: &Vec<(String, String)>)
        ensures
            r.deep_view() == self@.config,
    {
        &self.config
    }

    /// How many rules the service holds.
    pub fn field_count(&self) -> (r: usize)
        ensures
            r == self@.fields.len(),
    {
        self.fields.len()
    }

    /// Evaluates every rule against a document: the name-value pairs of the
    /// fields present in it, in rule order. A rule short of matches for its
    /// counted multiplicity fails the document with an extraction error.
    #[verifier::loop_isolation(false)]
    pub fn process(&self, html: &str) -> (r: Result<Vec<(String, String)>, ScrapeError>)
        ensures
            r matches Ok(pairs) ==> process_outcome(self@.fields, html@) == Ok::<
                Seq<(Seq<char>, Seq<char>)>,
                (),
            >(pairs.deep_view()),
            r matches Err(e) ==> process_outcome(self@.fields, html@) is Err && e.kind
                == ErrorKind::Extraction,
    {
        let n = self.fields.len();
        let mut pairs: Vec<(String, String)> = Vec::new();
        let mut i: usize = 0;
        proof {
            assert(self@.fields.skip(0) =~= self@.fields);
        }
        while i < n
            invariant
                0 <= i <= n,
                n == self@.fields.len(),
                process_outcome(self@.fields, html@) == (match process_outcome(
                    self@.fields.skip(i as int),
                    html@,
                ) {
                    Ok(rest) => Ok::<Seq<(Seq<char>, Seq<char>)>, ()>(pairs.deep_view() + rest),
                    Err(e) => Err::<Seq<(Seq<char>, Seq<char>)>, ()>(e),
                }),
            decreases n - i,
        {
            let ghost tail = self@.fields.skip(i as int);
            proof {
                assert(tail[0] == self@.fields[i as int]);
                assert(tail.drop_first() =~= self@.fields.skip(i + 1 as int));
                assert(self@.fields[i as int] == self.fields@[i as int]@);
            }
            let field = &self.fields[i];
            match field.get(html) {
                Ok(Some(value)) => {
                    let name = field.name().clone();
                    let ghost before = pairs.deep_view();
                    pairs.push((name, value));
                    proof {
                        assert(pairs.deep_view() =~~= before + seq![
                            (self@.fields[i as int].name, value@),
                        ]);
                        let po = process_outcome(self@.fields.skip(i + 1 as int), html@);
                        if po is Ok {
                            assert((before + seq![(self@.fields[i as int].name, value@)])
                                + po->Ok_0 =~= before + (seq![
                                (self@.fields[i as int].name, value@),
                            ] + po->Ok_0));
                        }
                    }
                },
                Ok(None) => {},
                Err(e) => {
                    return Err(e);
                },
            }
            i = i + 1;
        }
        proof {
            assert(self@.fields.skip(n as int) =~= Seq::<FieldV>::empty());
            let po = process_outcome(self@.fields, html@);
            if po is Ok {
                assert(pairs.deep_view() + Seq::<(Seq<char>, Seq<char>)>::empty()
                    =~= pairs.deep_view());
            }
        }
        Ok(pairs)
    }
}

/// The site names that built-in page handlers serve; none is registered.
pub fn register() -> (r: Vec<&'static str>)
    ensures
        r@.len() == 0,
{
    Vec::new()
}

} // verus!
