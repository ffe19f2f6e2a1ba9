//! Closures: named, callable values with declared parameters.

use vstd::prelude::*;
use std::sync::Arc;
use crate::error::{Error, ErrorKind};
use crate::unicode::str_equal;
use crate::value::codex::Value;
use crate::value::numeral::{decimal_digits, push_decimal};
use crate::value::text::Text;

verus! {

/// The executable body of a closure. What a body does is the business of
/// the engine that runs it; here it is a handle that the engine gave out.
#[derive(Debug, Clone, Copy, PartialEq, Eq, Structural, Hash)]
pub struct CodeBlock {
    pub handle: u64,
}

/// What all holders of one closure share.
#[derive(Debug)]
struct JourneyInner {
    name: String,
    is_method: bool,
    args: Vec<String>,
    codeblock: CodeBlock,
}

/// A closure: a name, a flag that tells methods from functions, the names of
/// the parameters in order, and a body.
///
/// A closure is made once and never changes. Its holders share one record.
/// Two closures are equal when they are the same instance, whatever they
/// hold: `identity` tells instances apart.
#[derive(Debug)]
pub struct Journey {
    identity: usize,
    inner: Arc<JourneyInner>,
}

/// The views of a row of strings.
pub open spec fn names_view(names: Seq<String>) -> Seq<Seq<char>> {
    Seq::new(names.len(), |i: int| names[i]@)
}

/// `Arc::as_ptr` gives the address of the shared record. Nothing is claimed
/// of the number: it serves to tell instances apart.
#[verifier::external_body]
fn address_of(inner: &Arc<JourneyInner>) -> usize {
    Arc::as_ptr(inner) as usize
}

/// `Arc::clone` gives another handle to the same shared record.
#[verifier::external_body]
fn share(inner: &Arc<JourneyInner>) -> (shared: Arc<JourneyInner>)
    ensures
        shared == *inner,
{
    Arc::clone(inner)
}

impl Journey {
    /// The name of the closure.
    pub closed spec fn name_view(&self) -> Seq<char> {
        self.inner.name@
    }

    /// Whether the closure is a method.
    pub closed spec fn method_flag(&self) -> bool {
        self.inner.is_method
    }

    /// The names of the parameters, in order.
    pub closed spec fn parameters(&self) -> Seq<Seq<char>> {
        names_view(self.inner.args@)
    }

    /// The body of the closure.
    pub closed spec fn body(&self) -> CodeBlock {
        self.inner.codeblock
    }

    /// What tells this instance from every other.
    pub closed spec fn identity(&self) -> usize {
        self.identity
    }

    /// A new closure. It is an instance of its own: it equals itself and
    /// its clones and nothing else.
    pub fn new(name: String, is_method: bool, args: Vec<String>, codeblock: CodeBlock) -> (journey:
        Journey)
        ensures
            journey.name_view() == name@,
            journey.method_flag() == is_method,
            journey.parameters() == names_view(args@),
            journey.body() == codeblock,
    {
        let inner = Arc::new(JourneyInner { name, is_method, args, codeblock });
        let identity = address_of(&inner);
        Journey { identity, inner }
    }

    /// The name of the closure.
    pub fn name(&self) -> (name: &str)
        ensures
            name@ == self.name_view(),
    {
        self.inner.name.as_str()
    }

    /// Whether the closure is a method.
    pub fn is_method(&self) -> (flag: bool)
        ensures
            flag == self.method_flag(),
    {
        self.inner.is_method
    }

    /// How many parameters the closure declares.
    pub fn arity(&self) -> (count: usize)
        ensures
            count == self.parameters().len(),
    {
        self.inner.args.len()
    }

    /// Whether `self` and `rhs` are the same instance.
    pub fn same_instance(&self, rhs: &Journey) -> (equal: bool)
        ensures
            equal == (self.identity() == rhs.identity()),
    {
        self.identity == rhs.identity
    }
}

/// A row of names as a row of text values.
pub open spec fn names_as_values(names: Seq<Seq<char>>, values: Seq<Value>) -> bool {
    values.len() == names.len() && forall|i: int|
        0 <= i < names.len() ==> {
            &&& #[trigger] values[i] matches Value::Text(text)
            &&& text@ == names[i]
        }
}

/// How a closure is written out: `Journey(`, its name, `: `, the number
/// that identifies the instance, and `)`.
pub open spec fn journey_dump(name: Seq<char>, identity: nat) -> Seq<char> {
    "Journey("@ + name + ": "@ + decimal_digits(identity) + ")"@
}

impl Journey {
    /// Whether `rhs` is this very closure. A value of another sort is not.
    pub fn is_equal(&self, rhs: &Value) -> (equal: Result<bool, Error>)
        ensures
            equal == Ok::<bool, Error>(
                rhs matches Value::Journey(other) && self.identity() == other.identity(),
            ),
    {
        match rhs {
            Value::Journey(other) => Ok(self.same_instance(other)),
            _ => Ok(false),
        }
    }

    /// Decides a call with the arguments `args`. When the closure declares
    /// as many parameters as there are arguments, the call goes ahead and
    /// the result is the body to run with them; otherwise the call fails
    /// with an error that holds both counts. Running the body is left to
    /// the caller.
    pub fn call(&self, args: &Vec<Value>) -> (body: Result<CodeBlock, Error>)
        ensures
            args@.len() == self.parameters().len() ==> body == Ok::<CodeBlock, Error>(self.body()),
            args@.len() != self.parameters().len() ==> body == Err::<CodeBlock, Error>(
                Error {
                    kind: ErrorKind::ArgumentCountError {
                        given: args@.len() as usize,
                        expected: self.parameters().len() as usize,
                    },
                    position: None,
                },
            ),
    {
        if args.len() == self.inner.args.len() {
            Ok(self.inner.codeblock)
        } else {
            Err(
                Error::runtime(
                    ErrorKind::ArgumentCountError {
                        given: args.len(),
                        expected: self.inner.args.len(),
                    },
                ),
            )
        }
    }

    /// The attribute `attr` of the closure: `name` is its name as a text,
    /// `args` the names of its parameters as a list of texts. There is no
    /// other attribute.
    pub fn get_attr(&self, attr: &str) -> (value: Result<Value, Error>)
        ensures
            attr@ == "name"@ ==> {
                &&& value matches Ok(Value::Text(text))
                &&& text@ == self.name_view()
            },
            attr@ == "args"@ ==> {
                &&& value matches Ok(Value::Book(names))
                &&& names_as_values(self.parameters(), names@)
            },
            attr@ != "name"@ && attr@ != "args"@ ==> {
                &&& value matches Err(e)
                &&& e.position is None
                &&& e.kind matches ErrorKind::UnknownAttribute(name)
                &&& name@ == attr@
            },
    {
        proof {
            reveal_strlit("name");
            reveal_strlit("args");
            assert("name"@[0] != "args"@[0]);
        }
        if str_equal(attr, "name") {
            Ok(Value::Text(Text::new(self.inner.name.as_str())))
        } else if str_equal(attr, "args") {
            let mut names: Vec<Value> = Vec::new();
            let mut i: usize = 0;
            while i < self.inner.args.len()
                invariant
                    i <= self.inner.args.len(),
                    names.len() == i,
                    forall|k: int|
                        0 <= k < i ==> {
                            &&& #[trigger] names@[k] matches Value::Text(text)
                            &&& text@ == self.inner.args@[k]@
                        },
                decreases self.inner.args.len() - i,
            {
                names.push(Value::Text(Text::new(self.inner.args[i].as_str())));
                i += 1;
            }
            proof {
                let declared = self.parameters();
                assert(declared.len() == names@.len());
                assert forall|k: int| 0 <= k < declared.len() implies {
                    &&& #[trigger] names@[k] matches Value::Text(text)
                    &&& text@ == declared[k]
                } by {
                    assert(declared[k] == self.inner.args@[k]@);
                }
            }
            Ok(Value::Book(names))
        } else {
            Err(Error::runtime(ErrorKind::UnknownAttribute(String::from_str(attr))))
        }
    }

    /// Writes the closure out at the end of `to`.
    pub fn dump(&self, to: &mut String)
        ensures
            final(to)@ == old(to)@ + journey_dump(self.name_view(), self.identity() as nat),
    {
        to.append("Journey(");
        to.append(self.inner.name.as_str());
        to.append(": ");
        push_decimal(to, self.identity as u64);
        to.append(")");
        assert(to@ =~= old(to)@ + journey_dump(self.name_view(), self.identity() as nat));
    }
}

impl Clone for Journey {
    /// Another holder of the same instance.
    fn clone(&self) -> (copy: Journey)
        ensures
            copy.identity() == self.identity(),
            copy.name_view() == self.name_view(),
            copy.method_flag() == self.method_flag(),
            copy.parameters() == self.parameters(),
            copy.body() == self.body(),
    {
        Journey { identity: self.identity, inner: share(&self.inner) }
    }
}

} // verus!
