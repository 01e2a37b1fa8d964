//! Reading the `#[scope]` attributes of a component's scope struct.
use vstd::prelude::*;

verus! {

/// Options of a state field.
pub struct State {}

impl Default for State {
    fn default() -> (s: Self)
        ensures
            s == (State {}),
    {
        State {}
    }
}

/// Options of a prop field.
pub struct PropOptions {}

impl Default for PropOptions {
    fn default() -> (s: Self)
        ensures
            s == (PropOptions {}),
    {
        PropOptions {}
    }
}

/// The options given in a `#[scope(..)]` attribute.
#[derive(Debug)]
pub struct ScopeOptions {}

impl Default for ScopeOptions {
    fn default() -> (s: Self)
        ensures
            s == (ScopeOptions {}),
    {
        ScopeOptions {}
    }
}

/// A scope struct, read: its options and the names of its state and prop
/// fields.
#[derive(Debug)]
pub struct Scope {
    pub options: ScopeOptions,
    pub state_fields: Vec<String>,
    pub prop_fields: Vec<String>,
}

/// Why a struct could not be read as a scope.
#[derive(Debug)]
pub enum ScopeError {
    /// The struct has no readable `#[scope]` attribute.
    NotAScopeError,
    /// The scope as far as it could be read, and the messages of what went
    /// wrong.
    ParsingError(Scope, Vec<String>),
}

/// An attribute of the struct: `attr` itself, whether it is a `#[scope]`
/// attribute and, if it is, its options or the message of why they could
/// not be parsed.
pub struct ScopeAttr<A> {
    pub attr: A,
    pub is_scope: bool,
    pub parsed: Result<ScopeOptions, String>,
}

/// Reads scope structs named `scope_name`.
pub struct ScopeFactory {
    pub scope_lifetime: String,
    pub scope_name: String,
}

/// The attributes that are no `#[scope]` attribute, last first.
pub open spec fn kept_attrs<A>(s: Seq<ScopeAttr<A>>) -> Seq<ScopeAttr<A>>
    decreases s.len(),
{
    if s.len() == 0 {
        Seq::empty()
    } else if s.last().is_scope {
        kept_attrs(s.drop_last())
    } else {
        seq![s.last()] + kept_attrs(s.drop_last())
    }
}

/// The number of `#[scope]` attributes whose options parsed.
pub open spec fn parsed_count<A>(s: Seq<ScopeAttr<A>>) -> nat
    decreases s.len(),
{
    if s.len() == 0 {
        0
    } else if s.last().is_scope && s.last().parsed is Ok {
        1 + parsed_count(s.drop_last())
    } else {
        parsed_count(s.drop_last())
    }
}

/// The messages of the `#[scope]` attributes whose options did not parse,
/// last first.
pub open spec fn parse_errors<A>(s: Seq<ScopeAttr<A>>) -> Seq<Seq<char>>
    decreases s.len(),
{
    if s.len() == 0 {
        Seq::empty()
    } else if s.last().is_scope && s.last().parsed is Err {
        seq![s.last().parsed->Err_0@] + parse_errors(s.drop_last())
    } else {
        parse_errors(s.drop_last())
    }
}

/// The message for a struct with more than one `#[scope]` attribute.
pub open spec fn multiple_scopes_message() -> Seq<char> {
    "Found multiple scope attributes!"@
}

impl ScopeFactory {
    /// Reads the `#[scope]` attributes of a struct whose attributes are
    /// `attrs`, and leaves it with the others only (in reverse order).
    /// Fails with `NotAScopeError` where no `#[scope]` attribute parsed;
    /// reports every option that did not parse and, where more than one did,
    /// that there were several.
    pub fn process_scope<A>(&self, attrs: &mut Vec<ScopeAttr<A>>) -> (r: Result<Scope, ScopeError>)
        ensures
            final(attrs)@ == kept_attrs(old(attrs)@),
            ({
                let n = parsed_count(old(attrs)@);
                let errors = if n > 1 {
                    parse_errors(old(attrs)@).push(multiple_scopes_message())
                } else {
                    parse_errors(old(attrs)@)
                };
                if n == 0 {
                    r matches Err(ScopeError::NotAScopeError)
                } else if errors.len() > 0 {
                    r matches Err(ScopeError::ParsingError(s, m)) && m@.map_values(|x: String| x@) == errors
                        && s.state_fields@.len() == 0 && s.prop_fields@.len() == 0
                } else {
                    r matches Ok(s) && s.state_fields@.len() == 0 && s.prop_fields@.len() == 0
                }
            }),
    {
        let ghost orig = attrs@;
        let mut kept: Vec<ScopeAttr<A>> = Vec::new();
        let mut scope_options_vec: Vec<ScopeOptions> = Vec::new();
        let mut errors: Vec<String> = Vec::new();
        proof {
            assert(orig.take(orig.len() as int) =~= orig);
        }
        while attrs.len() > 0
            invariant
                attrs@ == orig.take(attrs@.len() as int),
                attrs@.len() <= orig.len(),
                kept@ + kept_attrs(attrs@) == kept_attrs(orig),
                scope_options_vec@.len() + parsed_count(attrs@) == parsed_count(orig),
                errors@.map_values(|x: String| x@) + parse_errors(attrs@) == parse_errors(orig),
            decreases attrs@.len(),
        {
            let ghost before = attrs@;
            let attr = attrs.pop().unwrap();
            proof {
                assert(attrs@ =~= before.drop_last());
                assert(attrs@ =~= orig.take(attrs@.len() as int));
            }
            if attr.is_scope {
                match attr.parsed {
                    Ok(options) => {
                        scope_options_vec.push(options);
                    },
                    Err(message) => {
                        let ghost e0 = errors@.map_values(|x: String| x@);
                        errors.push(message);
                        proof {
                            assert(errors@.map_values(|x: String| x@) =~= e0.push(message@));
                            assert(e0.push(message@) + parse_errors(attrs@) =~= e0 + (seq![message@] + parse_errors(attrs@)));
                        }
                    },
                }
            } else {
                let ghost k0 = kept@;
                kept.push(attr);
                proof {
                    assert(k0.push(attr) + kept_attrs(attrs@) =~= k0 + (seq![attr] + kept_attrs(attrs@)));
                }
            }
        }
        proof {
            assert(kept_attrs(attrs@) =~= Seq::<ScopeAttr<A>>::empty());
            assert(kept@ + Seq::<ScopeAttr<A>>::empty() =~= kept@);
            assert(errors@.map_values(|x: String| x@) + Seq::<Seq<char>>::empty() =~= errors@.map_values(|x: String| x@));
        }
        *attrs = kept;
        let n = scope_options_vec.len();
        if n == 0 {
            return Err(ScopeError::NotAScopeError);
        }
        if n > 1 {
            let ghost e0 = errors@.map_values(|x: String| x@);
            let message = "Found multiple scope attributes!".to_string();
            proof {
                broadcast use vstd::string::group_string_axioms;
                reveal_strlit("Found multiple scope attributes!");
            }
            errors.push(message);
            proof {
                assert(errors@.map_values(|x: String| x@) =~= e0.push(message@));
            }
        }
        let options = scope_options_vec.pop().unwrap();
        let scope = Scope { options, state_fields: Vec::new(), prop_fields: Vec::new() };
        if errors.len() > 0 {
            Err(ScopeError::ParsingError(scope, errors))
        } else {
            Ok(scope)
        }
    }
}

} // verus!
