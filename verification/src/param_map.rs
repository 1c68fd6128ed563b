use vstd::prelude::*;

verus! {

/// A mapping entry: the note or controller number that triggers it, the
/// parameter type (0: Bool, 1: Int, 2: Float) and the parameter name.
pub type ParamEntry = (u8, usize, String);

/// The most entries a mapping table holds.
pub const MAX_ENTRIES: usize = 128;

/// The largest trigger among the entries; -1 when there are none.
pub open spec fn max_trigger(entries: Seq<ParamEntry>) -> int
    decreases entries.len(),
{
    if entries.len() == 0 {
        -1
    } else {
        let rest = max_trigger(entries.drop_last());
        if rest < entries.last().0 {
            entries.last().0 as int
        } else {
            rest
        }
    }
}

/// The trigger that a newly added entry gets: the note being played when
/// there is one (`meter` is not 0), else one above the largest trigger in
/// the table, else the trigger of the template entry.
pub open spec fn added_trigger(entries: Seq<ParamEntry>, template_trigger: u8, meter: u8) -> u8 {
    if meter != 0 {
        meter
    } else if entries.len() > 0 {
        (max_trigger(entries) + 1) as u8
    } else {
        template_trigger
    }
}

/// The adding is allowed: the table has room and the button was clicked.
pub open spec fn adds_entry(entries: Seq<ParamEntry>, clicked: bool) -> bool {
    entries.len() < MAX_ENTRIES && clicked
}

fn largest_trigger(entries: &Vec<ParamEntry>) -> (m: u8)
    requires
        entries.len() > 0,
    ensures
        m == max_trigger(entries@),
{
    let mut m: u8 = entries[0].0;
    let mut i: usize = 1;
    assert(entries@.take(1).drop_last() =~= Seq::<ParamEntry>::empty());
    assert(max_trigger(entries@.take(1).drop_last()) == -1);
    assert(entries@.take(1).last() == entries@[0]);
    while i < entries.len()
        invariant
            1 <= i <= entries.len(),
            m == max_trigger(entries@.take(i as int)),
        decreases entries.len() - i,
    {
        assert(entries@.take(i + 1).drop_last() =~= entries@.take(i as int));
        if m < entries[i].0 {
            m = entries[i].0;
        }
        i = i + 1;
    }
    assert(entries@.take(entries.len() as int) =~= entries@);
    m
}

/// What the "add" button of a mapping table does: when the table has room
/// and the button was clicked, appends the template entry with its trigger
/// replaced by `added_trigger`; returns whether it added one.
pub fn add_entry(entries: &mut Vec<ParamEntry>, template: ParamEntry, meter: u8, clicked: bool) -> (added:
    bool)
    requires
        adds_entry(old(entries)@, clicked) && old(entries).len() > 0 ==> max_trigger(old(entries)@)
            < 255,
    ensures
        added == adds_entry(old(entries)@, clicked),
        added ==> final(entries)@ == old(entries)@.push(
            (added_trigger(old(entries)@, template.0, meter), template.1, template.2),
        ),
        !added ==> final(entries)@ == old(entries)@,
        old(entries).len() <= MAX_ENTRIES ==> final(entries).len() <= MAX_ENTRIES,
{
    if entries.len() < MAX_ENTRIES && clicked {
        let mut entry = template;
        if entries.len() > 0 {
            let max = largest_trigger(entries);
            entry.0 = max + 1;
        }
        if meter != 0 {
            entry.0 = meter;
        }
        entries.push(entry);
        true
    } else {
        false
    }
}

/// The table once the row whose delete button was clicked, if any, is gone.
pub open spec fn after_delete(entries: Seq<ParamEntry>, delete: Option<usize>) -> Seq<ParamEntry> {
    match delete {
        Some(i) => entries.remove(i as int),
        None => entries,
    }
}

/// The table after one frame of its editor: the deleted row removed, then
/// the add button's effect on what remains.
pub open spec fn frame_result(
    entries: Seq<ParamEntry>,
    delete: Option<usize>,
    template: ParamEntry,
    meter: u8,
    clicked: bool,
) -> Seq<ParamEntry> {
    let rest = after_delete(entries, delete);
    if adds_entry(rest, clicked) {
        rest.push((added_trigger(rest, template.0, meter), template.1, template.2))
    } else {
        rest
    }
}

/// The inputs on which a frame's add would overflow the next trigger past 255.
pub open spec fn frame_overflows(entries: Seq<ParamEntry>, delete: Option<usize>, clicked: bool) -> bool {
    let rest = after_delete(entries, delete);
    adds_entry(rest, clicked) && rest.len() > 0 && max_trigger(rest) >= 255
}

/// What one frame of a mapping table's editor does to the table: removes the
/// row whose delete button was clicked, then adds an entry as `add_entry`
/// does; returns whether it added one.
pub fn edit_entries(
    entries: &mut Vec<ParamEntry>,
    delete: Option<usize>,
    template: ParamEntry,
    meter: u8,
    clicked: bool,
) -> (added: bool)
    requires
        delete matches Some(i) ==> i < old(entries).len(),
        !frame_overflows(old(entries)@, delete, clicked),
    ensures
        added == adds_entry(after_delete(old(entries)@, delete), clicked),
        final(entries)@ == frame_result(old(entries)@, delete, template, meter, clicked),
{
    if let Some(i) = delete {
        entries.remove(i);
    }
    add_entry(entries, template, meter, clicked)
}

/// Whether a frame would overflow the next trigger (see `frame_overflows`).
pub fn frame_would_overflow(entries: &Vec<ParamEntry>, delete: Option<usize>, clicked: bool) -> (b:
    bool)
    requires
        delete matches Some(i) ==> i < entries.len(),
    ensures
        b == frame_overflows(entries@, delete, clicked),
{
    let len = match delete {
        Some(_) => entries.len() - 1,
        None => entries.len(),
    };
    if !(len < MAX_ENTRIES && clicked) || len == 0 {
        return false;
    }
    let ghost rest = after_delete(entries@, delete);
    let mut m: u8 = 0;
    let mut seen = false;
    let mut j: usize = 0;
    let mut k: usize = 0;
    while j < entries.len()
        invariant
            j <= entries.len(),
            delete matches Some(i) ==> i < entries.len(),
            rest == after_delete(entries@, delete),
            k == (match delete {
                Some(i) => if j > i { j - 1 } else { j as int },
                None => j as int,
            }),
            seen == (k > 0),
            seen ==> m == max_trigger(rest.take(k as int)),
        decreases entries.len() - j,
    {
        if delete != Some(j) {
            proof {
                assert(rest[k as int] == entries@[j as int]);
                assert(rest.take(k + 1).drop_last() =~= rest.take(k as int));
                assert(rest.take(k + 1).last() == rest[k as int]);
                if k == 0 {
                    assert(rest.take(1).drop_last() =~= Seq::<ParamEntry>::empty());
                    assert(max_trigger(rest.take(0)) == -1);
                }
            }
            if !seen || m < entries[j].0 {
                m = entries[j].0;
            }
            seen = true;
            k = k + 1;
        }
        j = j + 1;
    }
    assert(rest.take(rest.len() as int) =~= rest);
    m == 255
}

proof fn lemma_max_trigger_bounds(entries: Seq<ParamEntry>)
    ensures
        forall|k: int| 0 <= k < entries.len() ==> (#[trigger] entries[k]).0 <= max_trigger(entries),
    decreases entries.len(),
{
    if entries.len() > 0 {
        let rest = entries.drop_last();
        lemma_max_trigger_bounds(rest);
        assert forall|k: int| 0 <= k < entries.len() implies (#[trigger] entries[k]).0 <= max_trigger(
            entries,
        ) by {
            if k < rest.len() {
                assert(entries[k] == rest[k]);
            }
        }
    }
}

/// When no note is playing, an entry added to a non-empty table gets a trigger
/// that no entry of the table has yet (one above the largest).
pub proof fn lemma_added_trigger_is_fresh(entries: Seq<ParamEntry>, template_trigger: u8)
    requires
        entries.len() > 0,
        max_trigger(entries) < 255,
    ensures
        forall|k: int|
            0 <= k < entries.len() ==> (#[trigger] entries[k]).0 < added_trigger(
                entries,
                template_trigger,
                0,
            ),
{
    lemma_max_trigger_bounds(entries);
}


/// One frame of a mapping table's editor keeps the table at most
/// `MAX_ENTRIES` long; the rows other than the deleted one keep their values
/// and their order, with the deleted row's followers moving up by one; and an
/// added entry comes after all of them.  When the table is full after the
/// deletion, nothing is added.
pub proof fn lemma_frame_keeps_rows(
    entries: Seq<ParamEntry>,
    delete: Option<usize>,
    template: ParamEntry,
    meter: u8,
    clicked: bool,
)
    requires
        entries.len() <= MAX_ENTRIES,
        delete matches Some(i) ==> i < entries.len(),
    ensures
        ({
            let rest = after_delete(entries, delete);
            let result = frame_result(entries, delete, template, meter, clicked);
            &&& result.len() <= MAX_ENTRIES
            &&& forall|k: int| 0 <= k < rest.len() ==> #[trigger] result[k] == rest[k]
            &&& result.len() == rest.len() || result.len() == rest.len() + 1
            &&& rest.len() == MAX_ENTRIES ==> result == rest
            &&& delete matches Some(i) ==> {
                &&& rest.len() == entries.len() - 1
                &&& forall|k: int| 0 <= k < i ==> #[trigger] rest[k] == entries[k]
                &&& forall|k: int| i <= k < rest.len() ==> #[trigger] rest[k] == entries[k + 1]
            }
            &&& delete is None ==> rest == entries
        }),
{
}

proof fn lemma_max_trigger_attained(entries: Seq<ParamEntry>)
    requires
        entries.len() > 0,
    ensures
        exists|k: int| 0 <= k < entries.len() && (#[trigger] entries[k]).0 == max_trigger(entries),
    decreases entries.len(),
{
    let rest = entries.drop_last();
    let last = entries.len() - 1;
    if rest.len() == 0 || max_trigger(rest) < entries.last().0 {
        assert(entries[last] == entries.last());
    } else {
        lemma_max_trigger_attained(rest);
        let k = choose|k: int| 0 <= k < rest.len() && (#[trigger] rest[k]).0 == max_trigger(rest);
        assert(entries[k] == rest[k]);
    }
}

/// The row that the add button appends, last in the table, carries the
/// template's type and name, and its trigger is: the playing note whenever a
/// note is playing (`meter` is not 0), in an empty table as in a full one;
/// with no note playing, the template's trigger in an empty table, and
/// otherwise one above the largest trigger already there, so above every one
/// of them.
pub proof fn lemma_added_row_trigger(
    entries: Seq<ParamEntry>,
    delete: Option<usize>,
    template: ParamEntry,
    meter: u8,
    clicked: bool,
)
    requires
        delete matches Some(i) ==> i < entries.len(),
        after_delete(entries, delete).len() < MAX_ENTRIES,
        clicked,
    ensures
        ({
            let rest = after_delete(entries, delete);
            let result = frame_result(entries, delete, template, meter, clicked);
            let added = result[result.len() - 1];
            &&& result.len() == rest.len() + 1
            &&& added.1 == template.1 && added.2 == template.2
            &&& meter != 0 ==> added.0 == meter
            &&& meter == 0 && rest.len() == 0 ==> added.0 == template.0
            &&& meter == 0 && rest.len() > 0 && (forall|k: int|
                0 <= k < rest.len() ==> (#[trigger] rest[k]).0 < 255) ==> {
                &&& forall|k: int| 0 <= k < rest.len() ==> (#[trigger] rest[k]).0 < added.0
                &&& exists|k: int| 0 <= k < rest.len() && (#[trigger] rest[k]).0 + 1 == added.0
            }
        }),
{
    let rest = after_delete(entries, delete);
    if meter == 0 && rest.len() > 0 && (forall|k: int|
        0 <= k < rest.len() ==> (#[trigger] rest[k]).0 < 255) {
        lemma_max_trigger_bounds(rest);
        lemma_max_trigger_attained(rest);
        let k = choose|k: int| 0 <= k < rest.len() && (#[trigger] rest[k]).0 == max_trigger(rest);
        assert(rest[k].0 < 255);
    }
}

}
