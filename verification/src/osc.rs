use vstd::prelude::*;

use crate::param_map::ParamEntry;
use crate::utils::{
    contains_escape, decode_unicode_escapes, encode_unicode_escapes, escaped, escapes_are_sliceable,
    escapes_sliceable, lemma_decode_encode_roundtrip, unescaped,
};

verus! {

// ---------------------------------------------------------------------------
// Parameter addresses
// ---------------------------------------------------------------------------

const PARAMETER_PREFIX: &'static str = "/avatar/parameters/";

/// The address prefix under which VRChat avatar parameters live.
pub open spec fn parameter_prefix() -> Seq<char> {
    seq!['/', 'a', 'v', 'a', 't', 'a', 'r', '/', 'p', 'a', 'r', 'a', 'm', 'e', 't', 'e', 'r', 's', '/']
}

/// The OSC address of a parameter: the prefix and the escaped name.
pub open spec fn parameter_address(name: Seq<char>) -> Seq<char> {
    parameter_prefix() + escaped(name)
}

pub open spec fn has_parameter_prefix(addr: Seq<char>) -> bool {
    addr.len() >= parameter_prefix().len() && addr.take(parameter_prefix().len() as int)
        == parameter_prefix()
}

/// The parameter name that an address stands for, when it has the prefix.
pub open spec fn parameter_name(addr: Seq<char>) -> Option<Seq<char>> {
    if has_parameter_prefix(addr) {
        Some(unescaped(addr.skip(parameter_prefix().len() as int)))
    } else {
        None
    }
}

/// The addresses that `try_get_name` accepts: when the prefix is there, what
/// follows it must be accepted by the escape decoder.
pub open spec fn parameter_name_decodable(addr: Seq<char>) -> bool {
    has_parameter_prefix(addr) ==> escapes_sliceable(addr.skip(parameter_prefix().len() as int))
}

proof fn lemma_prefix_literal()
    ensures
        PARAMETER_PREFIX@ == parameter_prefix(),
{
    reveal_strlit("/avatar/parameters/");
    assert(PARAMETER_PREFIX@ =~= parameter_prefix());
}

/// Builds the OSC address of a parameter from its name.
pub fn name_to_address(name: &str) -> (res: String)
    ensures
        res@ == parameter_address(name@),
{
    let encoded = encode_unicode_escapes(name);
    let mut addr = String::new();
    addr.push_str(PARAMETER_PREFIX);
    addr.push_str(encoded.as_str());
    proof {
        lemma_prefix_literal();
    }
    addr
}

fn starts_with_parameter_prefix(s: &str) -> (b: bool)
    ensures
        b == has_parameter_prefix(s@),
{
    proof {
        lemma_prefix_literal();
        reveal_strlit("/avatar/parameters/");
    }
    let n = s.unicode_len();
    let p = PARAMETER_PREFIX.unicode_len();
    if n < p {
        return false;
    }
    let mut i: usize = 0;
    while i < p
        invariant
            i <= p,
            p == parameter_prefix().len(),
            n == s@.len(),
            p <= n,
            PARAMETER_PREFIX@ == parameter_prefix(),
            forall|j: int| 0 <= j < i ==> s@[j] == parameter_prefix()[j],
        decreases p - i,
    {
        if s.get_char(i) != PARAMETER_PREFIX.get_char(i) {
            assert(s@.take(p as int)[i as int] != parameter_prefix()[i as int]);
            return false;
        }
        i = i + 1;
    }
    assert(s@.take(p as int) =~= parameter_prefix());
    true
}

fn text_after_prefix(s: &str) -> (rest: &str)
    requires
        has_parameter_prefix(s@),
    ensures
        rest@ == s@.skip(parameter_prefix().len() as int),
{
    proof {
        lemma_prefix_literal();
        reveal_strlit("/avatar/parameters/");
    }
    let n = s.unicode_len();
    let p = PARAMETER_PREFIX.unicode_len();
    let rest = s.substring_char(p, n);
    assert(rest@ =~= s@.skip(parameter_prefix().len() as int));
    rest
}

/// Reads the parameter name back from an OSC address: `None` when the address
/// lacks the parameter prefix.
pub fn try_get_name(s: &str) -> (res: Option<String>)
    requires
        parameter_name_decodable(s@),
    ensures
        res is Some <==> has_parameter_prefix(s@),
        res matches Some(name) ==> parameter_name(s@) == Some(name@),
{
    if !starts_with_parameter_prefix(s) {
        return None;
    }
    Some(decode_unicode_escapes(text_after_prefix(s)))
}

/// Whether `try_get_name` accepts the address (see `parameter_name_decodable`).
pub fn parameter_name_is_decodable(s: &str) -> (b: bool)
    ensures
        b == parameter_name_decodable(s@),
{
    if !starts_with_parameter_prefix(s) {
        return true;
    }
    escapes_are_sliceable(text_after_prefix(s))
}

/// Reading back the address built for a name gives that name, provided the
/// name does not itself hold a well-formed escape; and such an address is
/// always one that `try_get_name` accepts.
pub proof fn lemma_address_name_roundtrip(name: Seq<char>)
    requires
        !contains_escape(name),
    ensures
        parameter_name_decodable(parameter_address(name)),
        parameter_name(parameter_address(name)) == Some(name),
{
    let addr = parameter_address(name);
    assert(addr.take(parameter_prefix().len() as int) =~= parameter_prefix());
    assert(addr.skip(parameter_prefix().len() as int) =~= escaped(name));
    lemma_decode_encode_roundtrip(name);
}

// ---------------------------------------------------------------------------
// Messages
// ---------------------------------------------------------------------------

/// An OSC argument as this plugin sends it.  A float travels as the bit
/// pattern of its IEEE 754 single-precision value.
#[derive(Clone, Copy, Debug, PartialEq, Eq, Structural)]
pub enum OscArg {
    Bool(bool),
    Int(i32),
    Float(u32),
}

/// An OSC message: an address and its arguments.
#[derive(Debug, PartialEq)]
pub struct OscMessage {
    pub addr: String,
    pub args: Vec<OscArg>,
}

impl View for OscMessage {
    type V = (Seq<char>, Seq<OscArg>);

    open spec fn view(&self) -> (Seq<char>, Seq<OscArg>) {
        (self.addr@, self.args@)
    }
}

/// The bit pattern of the single-precision value 0.0.
pub open spec fn float_zero_bits() -> u32 {
    0
}

/// The argument of a note-on message for a parameter of the given type
/// (0: Bool, 1: Int, 2: Float): `true`, the velocity scaled to 0..=127,
/// or the velocity itself.
pub open spec fn note_on_arg(param_type: usize, scaled_velocity: i32, velocity_bits: u32) -> OscArg {
    if param_type == 0 {
        OscArg::Bool(true)
    } else if param_type == 1 {
        OscArg::Int(scaled_velocity)
    } else {
        OscArg::Float(velocity_bits)
    }
}

/// The argument of a note-off message: `false`, 0, or 0.0.
pub open spec fn note_off_arg(param_type: usize) -> OscArg {
    if param_type == 0 {
        OscArg::Bool(false)
    } else if param_type == 1 {
        OscArg::Int(0)
    } else {
        OscArg::Float(float_zero_bits())
    }
}

/// The argument of a control-change message (1: Int, 2: Float).
pub open spec fn cc_arg(param_type: usize, scaled_value: i32, value_bits: u32) -> OscArg {
    if param_type == 1 {
        OscArg::Int(scaled_value)
    } else {
        OscArg::Float(value_bits)
    }
}

fn single_arg_message(name: &str, arg: OscArg) -> (res: OscMessage)
    ensures
        res@ == (parameter_address(name@), seq![arg]),
{
    let addr = name_to_address(name);
    let mut args: Vec<OscArg> = Vec::new();
    args.push(arg);
    assert(args@ =~= seq![arg]);
    OscMessage { addr, args }
}

/// A message that sets the named Float parameter; the value comes as the bit
/// pattern of a single-precision float already clamped to 0.0..=1.0.
pub fn new_float_message(name: &str, value_bits: u32) -> (res: OscMessage)
    ensures
        res@ == (parameter_address(name@), seq![OscArg::Float(value_bits)]),
{
    single_arg_message(name, OscArg::Float(value_bits))
}

/// The message sent when a note mapped to the named parameter starts.
pub fn new_note_on_message(
    name: &str,
    param_type: &usize,
    scaled_velocity: i32,
    velocity_bits: u32,
) -> (res: OscMessage)
    requires
        *param_type < 3,
    ensures
        res@ == (parameter_address(name@), seq![note_on_arg(*param_type, scaled_velocity, velocity_bits)]),
{
    let arg = if *param_type == 0 {
        OscArg::Bool(true)
    } else if *param_type == 1 {
        OscArg::Int(scaled_velocity)
    } else {
        OscArg::Float(velocity_bits)
    };
    single_arg_message(name, arg)
}

/// The message sent when a note mapped to the named parameter ends.
pub fn new_note_off_message(name: &str, param_type: &usize) -> (res: OscMessage)
    requires
        *param_type < 3,
    ensures
        res@ == (parameter_address(name@), seq![note_off_arg(*param_type)]),
{
    let arg = if *param_type == 0 {
        OscArg::Bool(false)
    } else if *param_type == 1 {
        OscArg::Int(0)
    } else {
        OscArg::Float(0)
    };
    single_arg_message(name, arg)
}

/// The message sent when a control change mapped to the named parameter comes in.
pub fn new_cc_message(name: &str, param_type: &usize, scaled_value: i32, value_bits: u32) -> (res:
    OscMessage)
    requires
        1 <= *param_type <= 2,
    ensures
        res@ == (parameter_address(name@), seq![cc_arg(*param_type, scaled_value, value_bits)]),
{
    let arg = if *param_type == 1 {
        OscArg::Int(scaled_value)
    } else {
        OscArg::Float(value_bits)
    };
    single_arg_message(name, arg)
}

// ---------------------------------------------------------------------------
// Dispatching note and control-change events to mapped parameters
// ---------------------------------------------------------------------------

/// An entry reacts to a trigger when it names that trigger and has a name.
pub open spec fn is_mapped(entry: ParamEntry, trigger: u8) -> bool {
    entry.0 == trigger && entry.2@.len() > 0
}

/// The entries that react to a trigger carry parameter types in `lo..=hi`.
pub open spec fn mapped_types_within(entries: Seq<ParamEntry>, trigger: u8, lo: usize, hi: usize) -> bool {
    forall|k: int| 0 <= k < entries.len() && is_mapped(#[trigger] entries[k], trigger) ==> lo <= entries[k].1 <= hi
}

/// Whether the entries that react to a trigger all carry parameter types in
/// `lo..=hi`: what the message builders below need.
pub fn mapped_types_are_within(entries: &Vec<ParamEntry>, trigger: u8, lo: usize, hi: usize) -> (b:
    bool)
    ensures
        b == mapped_types_within(entries@, trigger, lo, hi),
{
    let mut i: usize = 0;
    while i < entries.len()
        invariant
            i <= entries.len(),
            forall|k: int|
                0 <= k < i && is_mapped(#[trigger] entries@[k], trigger) ==> lo <= entries@[k].1 <= hi,
        decreases entries.len() - i,
    {
        let entry = &entries[i];
        if entry.0 == trigger && !entry.2.as_str().is_empty() && (entry.1 < lo || entry.1 > hi) {
            assert(is_mapped(entries@[i as int], trigger));
            return false;
        }
        i = i + 1;
    }
    true
}

pub open spec fn note_on_step(note: u8, scaled_velocity: i32, velocity_bits: u32) -> spec_fn(ParamEntry) -> Option<(Seq<char>, Seq<OscArg>)> {
    |e: ParamEntry|
        if is_mapped(e, note) {
            Some((parameter_address(e.2@), seq![note_on_arg(e.1, scaled_velocity, velocity_bits)]))
        } else {
            None
        }
}

pub open spec fn note_off_step(note: u8) -> spec_fn(ParamEntry) -> Option<(Seq<char>, Seq<OscArg>)> {
    |e: ParamEntry|
        if is_mapped(e, note) {
            Some((parameter_address(e.2@), seq![note_off_arg(e.1)]))
        } else {
            None
        }
}

pub open spec fn cc_step(cc: u8, scaled_value: i32, value_bits: u32) -> spec_fn(ParamEntry) -> Option<(Seq<char>, Seq<OscArg>)> {
    |e: ParamEntry|
        if is_mapped(e, cc) {
            Some((parameter_address(e.2@), seq![cc_arg(e.1, scaled_value, value_bits)]))
        } else {
            None
        }
}

pub open spec fn messages_view(msgs: Seq<OscMessage>) -> Seq<(Seq<char>, Seq<OscArg>)> {
    msgs.map_values(|m: OscMessage| m@)
}

/// The messages to send when a note starts: one per entry that reacts to the
/// note, in the order of the entries.
pub fn note_on_messages(
    entries: &Vec<ParamEntry>,
    note: u8,
    scaled_velocity: i32,
    velocity_bits: u32,
) -> (res: Vec<OscMessage>)
    requires
        mapped_types_within(entries@, note, 0, 2),
    ensures
        messages_view(res@) == entries@.filter_map(note_on_step(note, scaled_velocity, velocity_bits)),
{
    let ghost f = note_on_step(note, scaled_velocity, velocity_bits);
    let mut out: Vec<OscMessage> = Vec::new();
    let mut i: usize = 0;
    while i < entries.len()
        invariant
            i <= entries.len(),
            mapped_types_within(entries@, note, 0, 2),
            f == note_on_step(note, scaled_velocity, velocity_bits),
            messages_view(out@) == entries@.take(i as int).filter_map(f),
        decreases entries.len() - i,
    {
        let ghost before = out@;
        let entry = &entries[i];
        if entry.0 == note && !entry.2.as_str().is_empty() {
            let msg = new_note_on_message(entry.2.as_str(), &entry.1, scaled_velocity, velocity_bits);
            out.push(msg);
            assert(messages_view(out@) =~= messages_view(before) + seq![msg@]);
        }
        proof {
            entries@.lemma_filter_map_take_succ(f, i as int);
        }
        i = i + 1;
    }
    assert(entries@.take(entries.len() as int) =~= entries@);
    out
}

/// The messages to send when a note ends.
pub fn note_off_messages(entries: &Vec<ParamEntry>, note: u8) -> (res: Vec<OscMessage>)
    requires
        mapped_types_within(entries@, note, 0, 2),
    ensures
        messages_view(res@) == entries@.filter_map(note_off_step(note)),
{
    let ghost f = note_off_step(note);
    let mut out: Vec<OscMessage> = Vec::new();
    let mut i: usize = 0;
    while i < entries.len()
        invariant
            i <= entries.len(),
            mapped_types_within(entries@, note, 0, 2),
            f == note_off_step(note),
            messages_view(out@) == entries@.take(i as int).filter_map(f),
        decreases entries.len() - i,
    {
        let ghost before = out@;
        let entry = &entries[i];
        if entry.0 == note && !entry.2.as_str().is_empty() {
            let msg = new_note_off_message(entry.2.as_str(), &entry.1);
            out.push(msg);
            assert(messages_view(out@) =~= messages_view(before) + seq![msg@]);
        }
        proof {
            entries@.lemma_filter_map_take_succ(f, i as int);
        }
        i = i + 1;
    }
    assert(entries@.take(entries.len() as int) =~= entries@);
    out
}

/// The messages to send when a control change comes in.
pub fn cc_messages(entries: &Vec<ParamEntry>, cc: u8, scaled_value: i32, value_bits: u32) -> (res:
    Vec<OscMessage>)
    requires
        mapped_types_within(entries@, cc, 1, 2),
    ensures
        messages_view(res@) == entries@.filter_map(cc_step(cc, scaled_value, value_bits)),
{
    let ghost f = cc_step(cc, scaled_value, value_bits);
    let mut out: Vec<OscMessage> = Vec::new();
    let mut i: usize = 0;
    while i < entries.len()
        invariant
            i <= entries.len(),
            mapped_types_within(entries@, cc, 1, 2),
            f == cc_step(cc, scaled_value, value_bits),
            messages_view(out@) == entries@.take(i as int).filter_map(f),
        decreases entries.len() - i,
    {
        let ghost before = out@;
        let entry = &entries[i];
        if entry.0 == cc && !entry.2.as_str().is_empty() {
            let msg = new_cc_message(entry.2.as_str(), &entry.1, scaled_value, value_bits);
            out.push(msg);
            assert(messages_view(out@) =~= messages_view(before) + seq![msg@]);
        }
        proof {
            entries@.lemma_filter_map_take_succ(f, i as int);
        }
        i = i + 1;
    }
    assert(entries@.take(entries.len() as int) =~= entries@);
    out
}

proof fn lemma_dispatch_in_order<B>(
    entries: Seq<ParamEntry>,
    f: spec_fn(ParamEntry) -> Option<B>,
    reacts: spec_fn(ParamEntry) -> bool,
    message: spec_fn(ParamEntry) -> B,
)
    requires
        forall|e: ParamEntry| #[trigger] f(e) == (if reacts(e) { Some(message(e)) } else { None }),
    ensures
        entries.filter_map(f) == entries.filter(reacts).map_values(message),
    decreases entries.len(),
{
    reveal(Seq::filter);
    if entries.len() > 0 {
        let rest = entries.drop_last();
        lemma_dispatch_in_order(rest, f, reacts, message);
        assert(f(entries.last()) == (if reacts(entries.last()) { Some(message(entries.last())) } else { None }));
        if reacts(entries.last()) {
            assert(entries.filter(reacts) == rest.filter(reacts).push(entries.last()));
            assert(entries.filter(reacts).map_values(message) =~= rest.filter(reacts).map_values(
                message,
            ) + seq![message(entries.last())]);
        } else {
            assert(entries.filter(reacts) == rest.filter(reacts));
        }
    }
}

/// The messages for a note-on: in the order of the entries, one for each
/// entry whose trigger is the note and whose name is not empty, sent to the
/// address of that name, carrying `true` for a Bool parameter, the scaled
/// velocity for an Int parameter and the velocity's bits for a Float one.
pub proof fn lemma_note_on_dispatch(entries: Seq<ParamEntry>, note: u8, scaled_velocity: i32, velocity_bits: u32)
    ensures
        entries.filter_map(note_on_step(note, scaled_velocity, velocity_bits)) == entries.filter(
            |e: ParamEntry| e.0 == note && e.2@.len() > 0,
        ).map_values(
            |e: ParamEntry|
                (
                    parameter_prefix() + escaped(e.2@),
                    seq![
                        if e.1 == 0 {
                            OscArg::Bool(true)
                        } else if e.1 == 1 {
                            OscArg::Int(scaled_velocity)
                        } else {
                            OscArg::Float(velocity_bits)
                        },
                    ],
                ),
        ),
{
    lemma_dispatch_in_order(
        entries,
        note_on_step(note, scaled_velocity, velocity_bits),
        |e: ParamEntry| e.0 == note && e.2@.len() > 0,
        |e: ParamEntry|
            (
                parameter_prefix() + escaped(e.2@),
                seq![
                    if e.1 == 0 {
                        OscArg::Bool(true)
                    } else if e.1 == 1 {
                        OscArg::Int(scaled_velocity)
                    } else {
                        OscArg::Float(velocity_bits)
                    },
                ],
            ),
    );
}

/// The messages for a note-off: in the order of the entries, one for each
/// entry whose trigger is the note and whose name is not empty, sent to the
/// address of that name, carrying `false`, 0 or 0.0 by the parameter's type.
pub proof fn lemma_note_off_dispatch(entries: Seq<ParamEntry>, note: u8)
    ensures
        entries.filter_map(note_off_step(note)) == entries.filter(
            |e: ParamEntry| e.0 == note && e.2@.len() > 0,
        ).map_values(
            |e: ParamEntry|
                (
                    parameter_prefix() + escaped(e.2@),
                    seq![
                        if e.1 == 0 {
                            OscArg::Bool(false)
                        } else if e.1 == 1 {
                            OscArg::Int(0)
                        } else {
                            OscArg::Float(0)
                        },
                    ],
                ),
        ),
{
    lemma_dispatch_in_order(
        entries,
        note_off_step(note),
        |e: ParamEntry| e.0 == note && e.2@.len() > 0,
        |e: ParamEntry|
            (
                parameter_prefix() + escaped(e.2@),
                seq![
                    if e.1 == 0 {
                        OscArg::Bool(false)
                    } else if e.1 == 1 {
                        OscArg::Int(0)
                    } else {
                        OscArg::Float(0)
                    },
                ],
            ),
    );
}

/// The messages for a control change: in the order of the entries, one for
/// each entry whose trigger is the controller and whose name is not empty (an
/// unnamed entry sends nothing), sent to the address of that name, carrying
/// the scaled value for an Int parameter and the value's bits otherwise.
pub proof fn lemma_cc_dispatch(entries: Seq<ParamEntry>, cc: u8, scaled_value: i32, value_bits: u32)
    ensures
        entries.filter_map(cc_step(cc, scaled_value, value_bits)) == entries.filter(
            |e: ParamEntry| e.0 == cc && e.2@.len() > 0,
        ).map_values(
            |e: ParamEntry|
                (
                    parameter_prefix() + escaped(e.2@),
                    seq![
                        if e.1 == 1 {
                            OscArg::Int(scaled_value)
                        } else {
                            OscArg::Float(value_bits)
                        },
                    ],
                ),
        ),
{
    lemma_dispatch_in_order(
        entries,
        cc_step(cc, scaled_value, value_bits),
        |e: ParamEntry| e.0 == cc && e.2@.len() > 0,
        |e: ParamEntry|
            (
                parameter_prefix() + escaped(e.2@),
                seq![
                    if e.1 == 1 {
                        OscArg::Int(scaled_value)
                    } else {
                        OscArg::Float(value_bits)
                    },
                ],
            ),
    );
}

// ---------------------------------------------------------------------------
// Repeated messages
// ---------------------------------------------------------------------------

/// Two arguments agree when they are of the same kind and, for integers and
/// booleans, equal.  Two floats always agree here: how close they must be is
/// a question of floating point, settled over `float_pairs`.
pub open spec fn args_agree(x: OscArg, y: OscArg) -> bool {
    match (x, y) {
        (OscArg::Int(a), OscArg::Int(b)) => a == b,
        (OscArg::Bool(a), OscArg::Bool(b)) => a == b,
        (OscArg::Float(_), OscArg::Float(_)) => true,
        _ => false,
    }
}

/// The kind of an OSC argument: 0 for a Bool, 1 for an Int, 2 for a Float.
pub open spec fn arg_kind(x: OscArg) -> int {
    match x {
        OscArg::Bool(_) => 0,
        OscArg::Int(_) => 1,
        OscArg::Float(_) => 2,
    }
}

/// Two arguments agree exactly when they are of the same kind and, unless
/// both are floats, equal; arguments of different kinds never agree.
pub proof fn lemma_args_agree_by_kind(x: OscArg, y: OscArg)
    ensures
        args_agree(x, y) <==> (arg_kind(x) == arg_kind(y) && (arg_kind(x) != 2 ==> x == y)),
{
}

/// A message whose argument at some place is of another kind than the one
/// at that place in the message sent before never agrees with it, so the
/// comparison gives `None` and the new message is sent.
pub proof fn lemma_kind_change_is_no_repeat(
    a: (Seq<char>, Seq<OscArg>),
    b: (Seq<char>, Seq<OscArg>),
    i: int,
)
    requires
        0 <= i < a.1.len(),
        i < b.1.len(),
        arg_kind(a.1[i]) != arg_kind(b.1[i]),
    ensures
        !agree_but_floats(a, b),
{
    lemma_args_agree_by_kind(a.1[i], b.1[i]);
}

/// The messages have one address and arguments that agree pairwise.
pub open spec fn agree_but_floats(a: (Seq<char>, Seq<OscArg>), b: (Seq<char>, Seq<OscArg>)) -> bool {
    &&& a.0 == b.0
    &&& a.1.len() == b.1.len()
    &&& forall|i: int| 0 <= i < a.1.len() ==> args_agree(#[trigger] a.1[i], b.1[i])
}

/// The float arguments that stand at the same place in both lists, in order,
/// as pairs of bit patterns.
pub open spec fn float_pairs(x: Seq<OscArg>, y: Seq<OscArg>) -> Seq<(u32, u32)>
    decreases x.len(),
{
    if x.len() == 0 || y.len() == 0 {
        Seq::empty()
    } else {
        let rest = float_pairs(x.drop_last(), y.drop_last());
        match (x.last(), y.last()) {
            (OscArg::Float(p), OscArg::Float(q)) => rest.push((p, q)),
            _ => rest,
        }
    }
}

/// Compares a message with the one sent before to the same address.  `None`
/// when they differ in their address, their number of arguments, the kind of
/// an argument, or an integer or boolean argument; otherwise the float
/// arguments at the same places, whose closeness decides whether the new
/// message repeats the old one.
pub fn float_pairs_to_compare(a: &OscMessage, b: &OscMessage) -> (res: Option<Vec<(u32, u32)>>)
    ensures
        res is Some <==> agree_but_floats(a@, b@),
        res matches Some(pairs) ==> pairs@ == float_pairs(a.args@, b.args@),
{
    if a.addr != b.addr || a.args.len() != b.args.len() {
        return None;
    }
    let n = a.args.len();
    let mut pairs: Vec<(u32, u32)> = Vec::new();
    let mut i: usize = 0;
    while i < n
        invariant
            i <= n,
            n == a.args@.len(),
            n == b.args@.len(),
            a.addr@ == b.addr@,
            forall|j: int| 0 <= j < i ==> args_agree(#[trigger] a.args@[j], b.args@[j]),
            pairs@ == float_pairs(a.args@.take(i as int), b.args@.take(i as int)),
        decreases n - i,
    {
        let x = a.args[i];
        let y = b.args[i];
        proof {
            let xs = a.args@.take(i + 1);
            let ys = b.args@.take(i + 1);
            assert(xs.drop_last() =~= a.args@.take(i as int));
            assert(ys.drop_last() =~= b.args@.take(i as int));
            assert(xs.last() == x && ys.last() == y);
        }
        match (x, y) {
            (OscArg::Int(p), OscArg::Int(q)) => {
                if p != q {
                    return None;
                }
            },
            (OscArg::Bool(p), OscArg::Bool(q)) => {
                if p != q {
                    return None;
                }
            },
            (OscArg::Float(p), OscArg::Float(q)) => {
                pairs.push((p, q));
            },
            _ => {
                return None;
            },
        }
        i = i + 1;
    }
    assert(a.args@.take(n as int) =~= a.args@);
    assert(b.args@.take(n as int) =~= b.args@);
    Some(pairs)
}

/// A message agrees with itself, and each of its float pairs pairs a float
/// with itself: whether a message repeats an identical one is left to the
/// comparison of equal floats alone.
pub proof fn lemma_message_agrees_with_itself(m: (Seq<char>, Seq<OscArg>))
    ensures
        agree_but_floats(m, m),
        forall|k: int|
            0 <= k < float_pairs(m.1, m.1).len() ==> (#[trigger] float_pairs(m.1, m.1)[k]).0
                == float_pairs(m.1, m.1)[k].1,
    decreases m.1.len(),
{
    if m.1.len() > 0 {
        let rest = m.1.drop_last();
        lemma_message_agrees_with_itself((m.0, rest));
        let before = float_pairs(rest, rest);
        let all = float_pairs(m.1, m.1);
        assert forall|k: int| 0 <= k < all.len() implies (#[trigger] all[k]).0 == all[k].1 by {
            if k < before.len() {
                assert(all[k] == before[k]);
            }
        }
    }
}

// ---------------------------------------------------------------------------
// Parameter updates received from VRChat
// ---------------------------------------------------------------------------

#[verifier::external_type_specification]
#[verifier::external_body]
pub struct ExOscType(rosc::OscType);

/// The longest UDP packet that is read: the buffer size of rosc's
/// `decoder::MTU`.  rosc decodes nested bundles by recursion, so the bound
/// also bounds the depth of that recursion.
pub const MAX_PACKET_LEN: usize = 1536;

/// The address and the arguments of the OSC message that a UDP packet holds,
/// as `rosc::decoder::decode_udp` reads it; `None` when the packet does not
/// decode, or decodes to a bundle.
pub uninterp spec fn decoded_message(packet: Seq<u8>) -> Option<(Seq<char>, Seq<rosc::OscType>)>;

/// Calls `rosc::decoder::decode_udp` and keeps the message it finds, if any.
/// Claimed: the address and the arguments are the ones that `decoded_message`
/// names for these bytes, and `None` comes exactly when that name is `None`.
#[verifier::external_body]
fn decode_udp_message(packet: &[u8]) -> (res: Option<(String, Vec<rosc::OscType>)>)
    requires
        packet@.len() <= MAX_PACKET_LEN,
    ensures
        match decoded_message(packet@) {
            None => res is None,
            Some((addr, vals)) => res matches Some((a, args)) && a@ == addr && args@ == vals,
        },
{
    match rosc::decoder::decode_udp(packet) {
        Ok((_, rosc::OscPacket::Message(msg))) => Some((msg.addr, msg.args)),
        Ok((_, rosc::OscPacket::Bundle(_))) => None,
        Err(_) => None,
    }
}

/// The OSC message in a UDP packet: its address and its arguments; `None`
/// when the packet does not decode to a message.
pub fn decode_message(packet: &[u8]) -> (res: Option<(String, Vec<rosc::OscType>)>)
    requires
        packet@.len() <= MAX_PACKET_LEN,
    ensures
        match decoded_message(packet@) {
            None => res is None,
            Some((addr, vals)) => res matches Some((a, args)) && a@ == addr && args@ == vals,
        },
{
    decode_udp_message(packet)
}

/// Reads a parameter update out of a UDP packet: the parameter's name and the
/// first argument of the message.  `None` when the packet holds no message,
/// when the address is not a parameter address, when there is no argument, or
/// when the name after the prefix is one that `try_get_name` does not accept.
pub fn receive_parameter(packet: &[u8]) -> (res: Option<(String, rosc::OscType)>)
    requires
        packet@.len() <= MAX_PACKET_LEN,
    ensures
        match decoded_message(packet@) {
            None => res is None,
            Some((addr, vals)) => {
                &&& res is Some <==> (has_parameter_prefix(addr) && vals.len() > 0
                    && parameter_name_decodable(addr))
                &&& res matches Some((name, v)) ==> parameter_name(addr) == Some(name@) && v
                    == vals[0]
            },
        },
{
    match decode_udp_message(packet) {
        None => None,
        Some((addr, args)) => {
            let mut args = args;
            if args.len() == 0 {
                return None;
            }
            if !parameter_name_is_decodable(addr.as_str()) {
                return None;
            }
            match try_get_name(addr.as_str()) {
                None => None,
                Some(name) => {
                    let first = args.remove(0);
                    Some((name, first))
                },
            }
        },
    }
}

/// A note's release reaches the same parameters, in the same order, as its
/// start: the messages of both events go to the same addresses.
pub proof fn lemma_note_off_mirrors_note_on(
    entries: Seq<ParamEntry>,
    note: u8,
    scaled_velocity: i32,
    velocity_bits: u32,
)
    ensures
        ({
            let on = entries.filter_map(note_on_step(note, scaled_velocity, velocity_bits));
            let off = entries.filter_map(note_off_step(note));
            &&& on.len() == off.len()
            &&& forall|k: int| 0 <= k < on.len() ==> (#[trigger] on[k]).0 == off[k].0
        }),
    decreases entries.len(),
{
    if entries.len() > 0 {
        lemma_note_off_mirrors_note_on(entries.drop_last(), note, scaled_velocity, velocity_bits);
    }
}

}
