use vstd::prelude::*;

verus! {

/// The kinds of value that an OSC argument can hold.
#[derive(PartialEq, Eq, Structural, Clone, Copy, Debug)]
pub enum OscTypeTag {
    Int,
    Float,
    Text,
    Bool,
    /// Any other kind (blob, time tag, long, double, char, color, MIDI,
    /// array, nil, infinitum).
    Other,
}

/// The kind of value that an OSC argument holds: which variant of
/// `rosc::OscType` it is (Int, Float, String, Bool, or any other).
pub uninterp spec fn osc_value_kind(t: rosc::OscType) -> OscTypeTag;

/// Tells the variants of `rosc::OscType` apart.  Claimed: the result is the
/// kind that `osc_value_kind` names for the argument.
#[verifier::external_body]
fn osc_type_tag(t: &rosc::OscType) -> (res: OscTypeTag)
    ensures
        res == osc_value_kind(*t),
{
    match t {
        rosc::OscType::Int(_) => OscTypeTag::Int,
        rosc::OscType::Float(_) => OscTypeTag::Float,
        rosc::OscType::String(_) => OscTypeTag::Text,
        rosc::OscType::Bool(_) => OscTypeTag::Bool,
        _ => OscTypeTag::Other,
    }
}

/// The parameter type of a kind of value: 0 for Bool, 1 for Int, 2 for
/// Float, and 3 for anything else.
pub open spec fn param_type_code(tag: OscTypeTag) -> usize {
    match tag {
        OscTypeTag::Bool => 0,
        OscTypeTag::Int => 1,
        OscTypeTag::Float => 2,
        _ => 3,
    }
}

/// The display name of a kind of value.
pub open spec fn type_display_name(tag: OscTypeTag) -> Seq<char> {
    match tag {
        OscTypeTag::Int => seq!['I', 'n', 't'],
        OscTypeTag::Float => seq!['F', 'l', 'o', 'a', 't'],
        OscTypeTag::Text => seq!['S', 't', 'r', 'i', 'n', 'g'],
        OscTypeTag::Bool => seq!['B', 'o', 'o', 'l'],
        _ => seq!['U', 'n', 'k', 'n', 'o', 'w', 'n'],
    }
}

pub fn param_type_of_tag(tag: OscTypeTag) -> (res: usize)
    ensures
        res == param_type_code(tag),
{
    match tag {
        OscTypeTag::Bool => 0,
        OscTypeTag::Int => 1,
        OscTypeTag::Float => 2,
        _ => 3,
    }
}

/// The parameter type of an OSC value (0: Bool, 1: Int, 2: Float, 3: other).
pub fn param_type_from_osc(t: &rosc::OscType) -> (res: usize)
    ensures
        res == param_type_code(osc_value_kind(*t)),
{
    param_type_of_tag(osc_type_tag(t))
}

pub fn type_name_of_tag(tag: OscTypeTag) -> (res: &'static str)
    ensures
        res@ == type_display_name(tag),
{
    match tag {
        OscTypeTag::Int => {
            proof {
                reveal_strlit("Int");
            }
            let s = "Int";
            assert(s@ =~= type_display_name(tag));
            s
        },
        OscTypeTag::Float => {
            proof {
                reveal_strlit("Float");
            }
            let s = "Float";
            assert(s@ =~= type_display_name(tag));
            s
        },
        OscTypeTag::Text => {
            proof {
                reveal_strlit("String");
            }
            let s = "String";
            assert(s@ =~= type_display_name(tag));
            s
        },
        OscTypeTag::Bool => {
            proof {
                reveal_strlit("Bool");
            }
            let s = "Bool";
            assert(s@ =~= type_display_name(tag));
            s
        },
        _ => {
            proof {
                reveal_strlit("Unknown");
            }
            let s = "Unknown";
            assert(s@ =~= type_display_name(tag));
            s
        },
    }
}

/// The display name of the kind of an OSC value: one of Int, Float, String,
/// Bool and Unknown.
pub fn type_as_str(t: &rosc::OscType) -> (res: &'static str)
    ensures
        res@ == type_display_name(osc_value_kind(*t)),
{
    type_name_of_tag(osc_type_tag(t))
}

pub open spec fn name_of_type_step(param_type: usize) -> spec_fn((String, usize)) -> Option<Seq<char>> {
    |p: (String, usize)|
        if p.1 == param_type {
            Some(p.0@)
        } else {
            None
        }
}

/// The names among received parameters (each with the parameter type of its
/// value, see `param_type_from_osc`) whose type is the given one, in the order
/// given: the candidates that a name field completes to.
pub fn names_with_param_type(params: &Vec<(String, usize)>, param_type: usize) -> (res: Vec<String>)
    ensures
        res@.map_values(|s: String| s@) == params@.filter_map(name_of_type_step(param_type)),
{
    let ghost f = name_of_type_step(param_type);
    let mut out: Vec<String> = Vec::new();
    let mut i: usize = 0;
    while i < params.len()
        invariant
            i <= params.len(),
            f == name_of_type_step(param_type),
            out@.map_values(|s: String| s@) == params@.take(i as int).filter_map(f),
        decreases params.len() - i,
    {
        let ghost before = out@;
        if params[i].1 == param_type {
            let name = params[i].0.clone();
            out.push(name);
            assert(out@.map_values(|s: String| s@) =~= before.map_values(|s: String| s@) + seq![
                name@,
            ]);
        }
        proof {
            params@.lemma_filter_map_take_succ(f, i as int);
        }
        i = i + 1;
    }
    assert(params@.take(params.len() as int) =~= params@);
    out
}

pub open spec fn name_in_types_step(types: Seq<usize>) -> spec_fn((String, usize)) -> Option<Seq<char>> {
    |p: (String, usize)|
        if types.contains(p.1) {
            Some(p.0@)
        } else {
            None
        }
}

fn type_is_listed(types: &Vec<usize>, t: usize) -> (b: bool)
    ensures
        b == types@.contains(t),
{
    let mut i: usize = 0;
    while i < types.len()
        invariant
            i <= types.len(),
            forall|j: int| 0 <= j < i ==> types@[j] != t,
        decreases types.len() - i,
    {
        if types[i] == t {
            return true;
        }
        i = i + 1;
    }
    false
}

/// The names among received parameters (each with the parameter type of its
/// value) whose type is one of the given ones, in the order given: the
/// candidates of a name field that accepts several parameter types.
pub fn names_with_param_types(params: &Vec<(String, usize)>, types: &Vec<usize>) -> (res: Vec<String>)
    ensures
        res@.map_values(|s: String| s@) == params@.filter_map(name_in_types_step(types@)),
{
    let ghost f = name_in_types_step(types@);
    let mut out: Vec<String> = Vec::new();
    let mut i: usize = 0;
    while i < params.len()
        invariant
            i <= params.len(),
            f == name_in_types_step(types@),
            out@.map_values(|s: String| s@) == params@.take(i as int).filter_map(f),
        decreases params.len() - i,
    {
        let ghost before = out@;
        if type_is_listed(types, params[i].1) {
            let name = params[i].0.clone();
            out.push(name);
            assert(out@.map_values(|s: String| s@) =~= before.map_values(|s: String| s@) + seq![
                name@,
            ]);
        }
        proof {
            params@.lemma_filter_map_take_succ(f, i as int);
        }
        i = i + 1;
    }
    assert(params@.take(params.len() as int) =~= params@);
    out
}

}
