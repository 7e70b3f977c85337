//! Device descriptors and the device-list transformation engine.
//!
//! A [`DeviceEntry`] is the transient, structured view of one enumerable
//! device, built once per enumeration call. The engine filters and orders
//! entries according to the configuration rules, re-projects the raw device
//! handles from the survivors' original array positions, and applies the
//! caller's two-call buffer-size contract.

use vstd::prelude::*;
use crate::config::{
    Config, RuleModel, hidden, effective_priority, is_hidden, effective_priority_of,
};

verus! {

/// One display attached to a device: a name placeholder and the physical
/// resolution reported for it.
pub struct DisplayInfo {
    /// Name of the display.
    pub name: String,
    /// Physical resolution, width by height.
    pub resolution: (u32, u32),
}

/// Mathematical model of a [`DisplayInfo`].
pub struct DisplayInfoModel {
    /// Name of the display.
    pub name: Seq<char>,
    /// Physical resolution, width by height.
    pub resolution: (u32, u32),
}

impl View for DisplayInfo {
    type V = DisplayInfoModel;

    open spec fn view(&self) -> DisplayInfoModel {
        DisplayInfoModel { name: self.name@, resolution: self.resolution }
    }
}

/// The structured descriptor of one enumerable device.
pub struct DeviceEntry {
    /// Index into the raw device array that this entry represents.
    ///
    /// This must be left unmodified: it is the only link back to the raw
    /// device handle.
    pub arr_idx: usize,

    /// Device name.
    pub name: String,

    /// Raw device properties, opaque and passed through unmodified.
    pub props: Vec<u8>,

    /// Raw device features, opaque and passed through unmodified.
    pub features: Vec<u8>,

    /// The displays attached to the device, empty when the display-query
    /// capability is absent or failed.
    pub displays: Vec<DisplayInfo>,
}

/// Mathematical model of a [`DeviceEntry`].
pub struct DeviceEntryModel {
    /// Original position in the raw device array.
    pub arr_idx: int,
    /// Device name.
    pub name: Seq<char>,
    /// Raw device properties.
    pub props: Seq<u8>,
    /// Raw device features.
    pub features: Seq<u8>,
    /// Attached displays.
    pub displays: Seq<DisplayInfoModel>,
}

impl View for DeviceEntry {
    type V = DeviceEntryModel;

    open spec fn view(&self) -> DeviceEntryModel {
        DeviceEntryModel {
            arr_idx: self.arr_idx as int,
            name: self.name@,
            props: self.props@,
            features: self.features@,
            displays: self.displays@.map_values(|d: DisplayInfo| d@),
        }
    }
}

/// The models of a sequence of device entries.
pub open spec fn entry_models(s: Seq<DeviceEntry>) -> Seq<DeviceEntryModel> {
    s.map_values(|e: DeviceEntry| e@)
}

/// The key a descriptor is ordered by: its effective priority under the
/// rules. Higher keys sort earlier.
pub open spec fn sort_key(rules: Seq<RuleModel>, e: DeviceEntryModel) -> int {
    effective_priority(rules, e)
}

/// The descriptors of `s` that no matching hide rule drops, in their
/// original relative order.
pub open spec fn filtered(rules: Seq<RuleModel>, s: Seq<DeviceEntryModel>) -> Seq<
    DeviceEntryModel,
>
    decreases s.len(),
{
    if s.len() == 0 {
        Seq::empty()
    } else {
        let prev = filtered(rules, s.drop_last());
        if hidden(rules, s.last()) {
            prev
        } else {
            prev.push(s.last())
        }
    }
}

/// Inserts `e` into `s` after every element whose key is at least the key
/// of `e`. On a list in descending key order this keeps the order
/// descending and places `e` after its key equals, which makes the sort
/// built from it stable.
pub open spec fn insert_by_priority(
    rules: Seq<RuleModel>,
    s: Seq<DeviceEntryModel>,
    e: DeviceEntryModel,
) -> Seq<DeviceEntryModel>
    decreases s.len(),
{
    if s.len() == 0 {
        seq![e]
    } else if sort_key(rules, s.first()) >= sort_key(rules, e) {
        seq![s.first()] + insert_by_priority(rules, s.drop_first(), e)
    } else {
        seq![e] + s
    }
}

/// The stable descending sort of `s` by [`sort_key`]: descriptors with
/// equal effective priority keep their original relative order.
pub open spec fn sorted_by_priority(rules: Seq<RuleModel>, s: Seq<DeviceEntryModel>) -> Seq<
    DeviceEntryModel,
>
    decreases s.len(),
{
    if s.len() == 0 {
        Seq::empty()
    } else {
        insert_by_priority(rules, sorted_by_priority(rules, s.drop_last()), s.last())
    }
}

/// The whole transformation: the descriptors that survive filtering, in
/// descending effective-priority order, original order among equals.
pub open spec fn surviving(rules: Seq<RuleModel>, s: Seq<DeviceEntryModel>) -> Seq<
    DeviceEntryModel,
> {
    sorted_by_priority(rules, filtered(rules, s))
}

/// Inserting at the position found by scanning past all keys at least the
/// key of `e` yields exactly [`insert_by_priority`].
proof fn lemma_insert_by_priority_at(
    rules: Seq<RuleModel>,
    s: Seq<DeviceEntryModel>,
    e: DeviceEntryModel,
    m: int,
)
    requires
        0 <= m <= s.len(),
        forall|j: int| 0 <= j < m ==> sort_key(rules, #[trigger] s[j]) >= sort_key(rules, e),
        m < s.len() ==> sort_key(rules, s[m]) < sort_key(rules, e),
    ensures
        insert_by_priority(rules, s, e) == s.insert(m, e),
    decreases s.len(),
{
    if m == 0 {
        if s.len() == 0 {
            assert(insert_by_priority(rules, s, e) =~= s.insert(0, e));
        } else {
            assert(sort_key(rules, s.first()) < sort_key(rules, e));
            assert(insert_by_priority(rules, s, e) == seq![e] + s);
            assert(seq![e] + s =~= s.insert(0, e));
        }
    } else {
        assert(sort_key(rules, s[0]) >= sort_key(rules, e));
        let rest = s.drop_first();
        assert forall|j: int|
            0 <= j < m - 1 implies sort_key(rules, #[trigger] rest[j]) >= sort_key(rules, e) by {
            assert(rest[j] == s[j + 1]);
        }
        assert(m - 1 < rest.len() ==> sort_key(rules, rest[m - 1]) < sort_key(rules, e));
        lemma_insert_by_priority_at(rules, rest, e, m - 1);
        assert(insert_by_priority(rules, s, e) == seq![s.first()] + rest.insert(m - 1, e));
        assert(seq![s.first()] + rest.insert(m - 1, e) =~= s.insert(m, e));
    }
}

/// Filtering never grows the list.
pub proof fn lemma_filtered_len(rules: Seq<RuleModel>, s: Seq<DeviceEntryModel>)
    ensures
        filtered(rules, s).len() <= s.len(),
    decreases s.len(),
{
    if s.len() > 0 {
        lemma_filtered_len(rules, s.drop_last());
    }
}

/// Every descriptor that passes the filter is one of the originals, and no
/// matching hide rule drops it.
pub proof fn lemma_filtered_elems(rules: Seq<RuleModel>, s: Seq<DeviceEntryModel>)
    ensures
        forall|i: int|
            0 <= i < filtered(rules, s).len() ==> s.contains(#[trigger] filtered(rules, s)[i])
                && !hidden(rules, filtered(rules, s)[i]),
    decreases s.len(),
{
    if s.len() > 0 {
        let prev = filtered(rules, s.drop_last());
        lemma_filtered_elems(rules, s.drop_last());
        assert forall|i: int|
            0 <= i < filtered(rules, s).len() implies s.contains(
            #[trigger] filtered(rules, s)[i],
        ) && !hidden(rules, filtered(rules, s)[i]) by {
            let f = filtered(rules, s);
            if i < prev.len() {
                assert(f[i] == prev[i]);
                assert(s.drop_last().contains(prev[i]));
                let k = choose|k: int| 0 <= k < s.drop_last().len() && s.drop_last()[k] == prev[i];
                assert(s[k] == prev[i]);
            } else {
                assert(f[i] == s.last());
                assert(s[s.len() - 1] == s.last());
            }
        }
    }
}

/// The list grown by [`insert_by_priority`] holds exactly one more
/// element, and every element is `e` or one of the originals.
proof fn lemma_insert_by_priority_elems(
    rules: Seq<RuleModel>,
    s: Seq<DeviceEntryModel>,
    e: DeviceEntryModel,
)
    ensures
        insert_by_priority(rules, s, e).len() == s.len() + 1,
        forall|i: int|
            0 <= i < insert_by_priority(rules, s, e).len() ==> (#[trigger] insert_by_priority(
                rules,
                s,
                e,
            )[i] == e || s.contains(insert_by_priority(rules, s, e)[i])),
    decreases s.len(),
{
    let ins = insert_by_priority(rules, s, e);
    if s.len() == 0 {
    } else if sort_key(rules, s.first()) >= sort_key(rules, e) {
        let rest = s.drop_first();
        lemma_insert_by_priority_elems(rules, rest, e);
        assert forall|i: int|
            0 <= i < ins.len() implies (#[trigger] ins[i] == e || s.contains(ins[i])) by {
            if i == 0 {
                assert(ins[0] == s.first());
                assert(s[0] == s.first());
            } else {
                let inner = insert_by_priority(rules, rest, e);
                assert(ins[i] == inner[i - 1]);
                if inner[i - 1] == e {
                } else {
                    assert(rest.contains(inner[i - 1]));
                    let k = choose|k: int| 0 <= k < rest.len() && rest[k] == inner[i - 1];
                    assert(s[k + 1] == inner[i - 1]);
                }
            }
        }
    } else {
        assert forall|i: int|
            0 <= i < ins.len() implies (#[trigger] ins[i] == e || s.contains(ins[i])) by {
            if i > 0 {
                assert(ins[i] == s[i - 1]);
            }
        }
    }
}

/// Sorting keeps the length, and every sorted element is one of the
/// originals.
pub proof fn lemma_sorted_elems(rules: Seq<RuleModel>, s: Seq<DeviceEntryModel>)
    ensures
        sorted_by_priority(rules, s).len() == s.len(),
        forall|i: int|
            0 <= i < sorted_by_priority(rules, s).len() ==> s.contains(
                #[trigger] sorted_by_priority(rules, s)[i],
            ),
    decreases s.len(),
{
    if s.len() > 0 {
        let prev = sorted_by_priority(rules, s.drop_last());
        lemma_sorted_elems(rules, s.drop_last());
        lemma_insert_by_priority_elems(rules, prev, s.last());
        assert forall|i: int|
            0 <= i < sorted_by_priority(rules, s).len() implies s.contains(
            #[trigger] sorted_by_priority(rules, s)[i],
        ) by {
            let x = sorted_by_priority(rules, s)[i];
            if x == s.last() {
                assert(s[s.len() - 1] == s.last());
            } else {
                assert(prev.contains(x));
                let k = choose|k: int| 0 <= k < prev.len() && prev[k] == x;
                assert(s.drop_last().contains(prev[k]));
                let j = choose|j: int| 0 <= j < s.drop_last().len() && s.drop_last()[j] == x;
                assert(s[j] == x);
            }
        }
    }
}

/// Every surviving descriptor is one of the originals — in particular its
/// original array position, the link back to its raw device handle, is
/// carried through unchanged — and no descriptor dropped by a matching
/// hide rule survives.
pub proof fn lemma_surviving_elems(rules: Seq<RuleModel>, s: Seq<DeviceEntryModel>)
    ensures
        surviving(rules, s).len() <= s.len(),
        forall|i: int|
            0 <= i < surviving(rules, s).len() ==> s.contains(#[trigger] surviving(rules, s)[i])
                && !hidden(rules, surviving(rules, s)[i]),
{
    lemma_filtered_len(rules, s);
    lemma_filtered_elems(rules, s);
    lemma_sorted_elems(rules, filtered(rules, s));
    assert forall|i: int|
        0 <= i < surviving(rules, s).len() implies s.contains(#[trigger] surviving(rules, s)[i])
            && !hidden(rules, surviving(rules, s)[i]) by {
        let x = surviving(rules, s)[i];
        assert(filtered(rules, s).contains(x));
        let k = choose|k: int| 0 <= k < filtered(rules, s).len() && filtered(rules, s)[k] == x;
        assert(s.contains(filtered(rules, s)[k]) && !hidden(rules, filtered(rules, s)[k]));
    }
}

/// Filters then stably sorts `entries` in place according to the rules of
/// `config`: hidden descriptors are dropped, the rest are reordered by
/// descending effective priority, original order among equal priorities.
pub fn modify_device_entries(config: &Config, entries: &mut Vec<DeviceEntry>)
    ensures
        entry_models(final(entries)@) == surviving(config@, entry_models(old(entries)@)),
{
    let mut input: Vec<DeviceEntry> = Vec::new();
    core::mem::swap(entries, &mut input);
    let ghost orig = entry_models(input@);

    // Drop every descriptor that a matching hide rule drops.
    let mut kept: Vec<DeviceEntry> = Vec::new();
    let ghost mut done: int = 0;
    while input.len() > 0
        invariant
            0 <= done <= orig.len(),
            done + input@.len() == orig.len(),
            entry_models(input@) == orig.subrange(done, orig.len() as int),
            entry_models(kept@) == filtered(config@, orig.subrange(0, done)),
        decreases input.len(),
    {
        let ghost pre_input = input@;
        let ghost pre_kept = kept@;
        let e = input.remove(0);
        proof {
            assert(done < orig.len());
            assert(orig.subrange(done, orig.len() as int)[0] == orig[done]);
            assert(e@ == entry_models(pre_input)[0]);
            assert(e@ == orig[done]);
            assert forall|j: int|
                0 <= j < input@.len() implies entry_models(input@)[j] == orig.subrange(
                done + 1,
                orig.len() as int,
            )[j] by {
                assert(input@[j] == pre_input.remove(0)[j]);
                assert(input@[j] == pre_input[j + 1]);
                assert(entry_models(pre_input)[j + 1] == pre_input[j + 1]@);
                assert(orig.subrange(done, orig.len() as int)[j + 1] == orig[done + j + 1]);
                assert(orig.subrange(done + 1, orig.len() as int)[j] == orig[done + 1 + j]);
            }
            assert(entry_models(input@) =~= orig.subrange(done + 1, orig.len() as int));
        }
        let h = is_hidden(config, &e);
        if !h {
            kept.push(e);
            proof {
                assert(entry_models(kept@) =~= entry_models(pre_kept).push(orig[done]));
            }
        }
        proof {
            let t = orig.subrange(0, done + 1);
            assert(t.drop_last() =~= orig.subrange(0, done));
            assert(t.last() == orig[done]);
            assert(entry_models(kept@) == filtered(config@, t));
            done = done + 1;
        }
    }
    proof {
        assert(orig.subrange(0, orig.len() as int) =~= orig);
    }

    // Stable insertion sort by descending effective priority.
    let ghost fseq = entry_models(kept@);
    let mut out: Vec<DeviceEntry> = Vec::new();
    let mut keys: Vec<i64> = Vec::new();
    let ghost mut sorted_done: int = 0;
    while kept.len() > 0
        invariant
            0 <= sorted_done <= fseq.len(),
            sorted_done + kept@.len() == fseq.len(),
            entry_models(kept@) == fseq.subrange(sorted_done, fseq.len() as int),
            entry_models(out@) == sorted_by_priority(config@, fseq.subrange(0, sorted_done)),
            keys@.len() == out@.len(),
            forall|p: int|
                0 <= p < keys@.len() ==> #[trigger] keys@[p] as int == sort_key(
                    config@,
                    entry_models(out@)[p],
                ),
        decreases kept.len(),
    {
        let ghost pre_kept = kept@;
        let e = kept.remove(0);
        proof {
            assert(sorted_done < fseq.len());
            assert(fseq.subrange(sorted_done, fseq.len() as int)[0] == fseq[sorted_done]);
            assert(e@ == entry_models(pre_kept)[0]);
            assert(e@ == fseq[sorted_done]);
            assert forall|j: int|
                0 <= j < kept@.len() implies entry_models(kept@)[j] == fseq.subrange(
                sorted_done + 1,
                fseq.len() as int,
            )[j] by {
                assert(kept@[j] == pre_kept.remove(0)[j]);
                assert(kept@[j] == pre_kept[j + 1]);
                assert(entry_models(pre_kept)[j + 1] == pre_kept[j + 1]@);
                assert(fseq.subrange(sorted_done, fseq.len() as int)[j + 1] == fseq[sorted_done + j
                    + 1]);
                assert(fseq.subrange(sorted_done + 1, fseq.len() as int)[j] == fseq[sorted_done + 1
                    + j]);
            }
            assert(entry_models(kept@) =~= fseq.subrange(sorted_done + 1, fseq.len() as int));
        }
        let k = effective_priority_of(config, &e);
        let mut m: usize = 0;
        while m < out.len() && keys[m] >= k
            invariant
                m <= out.len(),
                keys@.len() == out@.len(),
                forall|j: int| 0 <= j < m ==> #[trigger] keys@[j] >= k,
            decreases out.len() - m,
        {
            m += 1;
        }
        let ghost pre_out = entry_models(out@);
        let ghost pre_keys = keys@;
        out.insert(m, e);
        keys.insert(m, k);
        proof {
            assert forall|j: int|
                0 <= j < m implies sort_key(config@, #[trigger] pre_out[j]) >= sort_key(
                config@,
                e@,
            ) by {
                assert(pre_keys[j] >= k);
            }
            assert(m < pre_out.len() ==> sort_key(config@, pre_out[m as int]) < sort_key(
                config@,
                e@,
            ));
            lemma_insert_by_priority_at(config@, pre_out, e@, m as int);
            assert(entry_models(out@) =~= pre_out.insert(m as int, e@));
            let t = fseq.subrange(0, sorted_done + 1);
            assert(t.drop_last() =~= fseq.subrange(0, sorted_done));
            assert(t.last() == fseq[sorted_done]);
            assert(entry_models(out@) == sorted_by_priority(config@, t));
            assert(keys@ =~= pre_keys.insert(m as int, k));
            assert forall|p: int|
                0 <= p < keys@.len() implies #[trigger] keys@[p] as int == sort_key(
                config@,
                entry_models(out@)[p],
            ) by {
                if p < m {
                    assert(keys@[p] == pre_keys[p]);
                    assert(entry_models(out@)[p] == pre_out[p]);
                } else if p == m {
                    assert(keys@[p] == k);
                    assert(entry_models(out@)[p] == e@);
                } else {
                    assert(keys@[p] == pre_keys[p - 1]);
                    assert(entry_models(out@)[p] == pre_out[p - 1]);
                }
            }
            sorted_done = sorted_done + 1;
        }
    }
    proof {
        assert(fseq.subrange(0, fseq.len() as int) =~= fseq);
    }
    *entries = out;
}


/// The device array paired with the descriptors built from it. Committing
/// re-projects the array from the descriptors' original positions.
pub struct DeviceArray {
    /// The descriptors, possibly filtered and reordered.
    pub entries: Vec<DeviceEntry>,
    /// The raw device handles, in their original order until committed.
    pub array: Vec<usize>,
}

impl DeviceArray {
    /// Commits the descriptor order back to the handle array: the first
    /// `entries.len()` slots become the handles at the descriptors'
    /// original positions, in descriptor order; the rest are untouched.
    /// Returns the number of committed slots.
    pub fn commit(&mut self) -> (n: usize)
        requires
            old(self).entries@.len() <= old(self).array@.len(),
            forall|i: int|
                0 <= i < old(self).entries@.len() ==> (#[trigger] old(self).entries@[i]).arr_idx
                    < old(self).array@.len(),
        ensures
            n == old(self).entries@.len(),
            final(self).entries == old(self).entries,
            final(self).array@.len() == old(self).array@.len(),
            forall|i: int|
                0 <= i < n ==> final(self).array@[i] == old(self).array@[(
                #[trigger] old(self).entries@[i]).arr_idx as int],
            forall|i: int|
                n <= i < old(self).array@.len() ==> final(self).array@[i] == old(self).array@[i],
    {
        let mut new_array: Vec<usize> = Vec::new();
        let mut i: usize = 0;
        while i < self.entries.len()
            invariant
                i <= self.entries@.len(),
                self == old(self),
                self.entries@.len() <= self.array@.len(),
                forall|p: int|
                    0 <= p < self.entries@.len() ==> (#[trigger] self.entries@[p]).arr_idx
                        < self.array@.len(),
                new_array@.len() == i,
                forall|p: int|
                    0 <= p < i ==> new_array@[p] == self.array@[(
                    #[trigger] self.entries@[p]).arr_idx as int],
            decreases self.entries@.len() - i,
        {
            let idx = self.entries[i].arr_idx;
            new_array.push(self.array[idx]);
            i += 1;
        }
        let n = self.entries.len();
        let mut j: usize = n;
        while j < self.array.len()
            invariant
                self == old(self),
                n == self.entries@.len(),
                n <= j <= self.array@.len(),
                new_array@.len() == j,
                forall|p: int|
                    0 <= p < n ==> new_array@[p] == self.array@[(
                    #[trigger] self.entries@[p]).arr_idx as int],
                forall|p: int| n <= p < j ==> new_array@[p] == self.array@[p],
            decreases self.array@.len() - j,
        {
            new_array.push(self.array[j]);
            j += 1;
        }
        self.array = new_array;
        n
    }
}

/// The handles the caller receives: nothing for a count query, the whole
/// survivor list when the buffer is large enough, else the prefix that
/// fits.
pub open spec fn outcome_written(avail: Seq<usize>, requested: Option<u32>) -> Seq<usize> {
    match requested {
        None => Seq::empty(),
        Some(req) => if req as int >= avail.len() {
            avail
        } else {
            avail.take(req as int)
        },
    }
}

/// The count the caller receives: the survivor count, except that a
/// too-small buffer leaves the caller's own capacity in place.
pub open spec fn outcome_count(avail: Seq<usize>, requested: Option<u32>) -> int {
    match requested {
        None => avail.len() as int,
        Some(req) => if req as int >= avail.len() {
            avail.len() as int
        } else {
            req as int
        },
    }
}

/// The status the caller receives: success, except the non-fatal
/// incomplete status when a too-small buffer forced truncation.
pub open spec fn outcome_status(avail: Seq<usize>, requested: Option<u32>) -> i32 {
    match requested {
        None => crate::status::VK_SUCCESS,
        Some(req) => if req as int >= avail.len() {
            crate::status::VK_SUCCESS
        } else {
            crate::status::VK_INCOMPLETE
        },
    }
}

/// What one enumeration call hands back to the caller.
pub struct EnumerateOutcome {
    /// The handles to copy into the caller's buffer, in order.
    pub written: Vec<usize>,
    /// The value for the caller's count field.
    pub count: u32,
    /// The status code of the call.
    pub status: i32,
}

/// Applies the two-call buffer-size contract to the survivor handles:
/// a count query (`requested` absent) reports the survivor count; a fill
/// with enough capacity hands over every survivor and the exact count; a
/// fill with too little capacity hands over the prefix that fits, keeps
/// the caller's capacity as the count, and reports the incomplete status.
pub fn copy_out(available: &Vec<usize>, requested: Option<u32>) -> (out: EnumerateOutcome)
    requires
        available@.len() <= u32::MAX,
    ensures
        out.written@ == outcome_written(available@, requested),
        out.count as int == outcome_count(available@, requested),
        out.status == outcome_status(available@, requested),
{
    match requested {
        None => {
            let out = EnumerateOutcome {
                written: Vec::new(),
                count: available.len() as u32,
                status: crate::status::VK_SUCCESS,
            };
            proof {
                assert(out.written@ =~= outcome_written(available@, requested));
            }
            out
        },
        Some(req) => {
            let avail_len = available.len();
            let take_n = if (req as usize) < avail_len {
                req as usize
            } else {
                avail_len
            };
            let mut written: Vec<usize> = Vec::new();
            let mut i: usize = 0;
            while i < take_n
                invariant
                    i <= take_n,
                    take_n <= available@.len(),
                    written@ == available@.take(i as int),
                decreases take_n - i,
            {
                written.push(available[i]);
                proof {
                    assert(available@.take(i + 1 as int) =~= available@.take(i as int).push(
                        available@[i as int],
                    ));
                }
                i += 1;
            }
            if (req as usize) >= avail_len {
                proof {
                    assert(written@ =~= available@);
                }
                EnumerateOutcome { written, count: avail_len as u32, status: crate::status::VK_SUCCESS }
            } else {
                EnumerateOutcome { written, count: req, status: crate::status::VK_INCOMPLETE }
            }
        },
    }
}

/// The survivor handles: the raw handles of the surviving descriptors, in
/// survivor order, each taken from its original array position.
pub open spec fn survivor_handles(
    rules: Seq<RuleModel>,
    entries: Seq<DeviceEntryModel>,
    handles: Seq<usize>,
) -> Seq<usize> {
    surviving(rules, entries).map_values(|e: DeviceEntryModel| handles[e.arr_idx])
}

/// One whole enumeration call on plain values: filters and reorders the
/// descriptors under the rules of `config`, re-projects the raw handles
/// from the survivors' original positions, and applies the two-call
/// buffer-size contract for the caller's `requested` capacity (`None` is
/// the count query).
pub fn enumerate_devices(
    config: &Config,
    handles: Vec<usize>,
    entries: Vec<DeviceEntry>,
    requested: Option<u32>,
) -> (out: EnumerateOutcome)
    requires
        entries@.len() == handles@.len(),
        forall|i: int| 0 <= i < entries@.len() ==> (#[trigger] entries@[i]).arr_idx == i,
        handles@.len() <= u32::MAX,
    ensures
        out.written@ == outcome_written(
            survivor_handles(config@, entry_models(entries@), handles@),
            requested,
        ),
        out.count as int == outcome_count(
            survivor_handles(config@, entry_models(entries@), handles@),
            requested,
        ),
        out.status == outcome_status(
            survivor_handles(config@, entry_models(entries@), handles@),
            requested,
        ),
{
    let ghost orig_entries = entry_models(entries@);
    let ghost orig_handles = handles@;
    let mut entries = entries;
    modify_device_entries(config, &mut entries);
    proof {
        lemma_surviving_elems(config@, orig_entries);
        assert forall|i: int|
            0 <= i < entries@.len() implies (#[trigger] entries@[i]).arr_idx
                < orig_handles.len() by {
            let x = entry_models(entries@)[i];
            assert(x == entries@[i]@);
            assert(orig_entries.contains(x));
            let k = choose|k: int| 0 <= k < orig_entries.len() && orig_entries[k] == x;
            assert(orig_entries[k].arr_idx == k);
        }
    }
    let mut arr = DeviceArray { entries, array: handles };
    let n = arr.commit();
    let mut survivors = arr.array;
    survivors.truncate(n);
    proof {
        let sh = survivor_handles(config@, orig_entries, orig_handles);
        assert forall|i: int| 0 <= i < n implies survivors@[i] == sh[i] by {
            assert(surviving(config@, orig_entries)[i] == entry_models(arr.entries@)[i]);
            assert(entry_models(arr.entries@)[i] == arr.entries@[i]@);
        }
        assert(survivors@ =~= sh);
    }
    copy_out(&survivors, requested)
}


/// A list in which no descriptor is dropped by a matching hide rule is
/// left unchanged by the filter.
proof fn lemma_filtered_of_unhidden(rules: Seq<RuleModel>, s: Seq<DeviceEntryModel>)
    requires
        forall|i: int| 0 <= i < s.len() ==> !hidden(rules, #[trigger] s[i]),
    ensures
        filtered(rules, s) == s,
    decreases s.len(),
{
    if s.len() > 0 {
        assert(s[s.len() - 1] == s.last());
        assert(!hidden(rules, s.last()));
        assert forall|i: int| 0 <= i < s.drop_last().len() implies !hidden(
            rules,
            #[trigger] s.drop_last()[i],
        ) by {
            assert(s.drop_last()[i] == s[i]);
        }
        lemma_filtered_of_unhidden(rules, s.drop_last());
        assert(s.drop_last().push(s.last()) =~= s);
    }
}

/// Filtering is idempotent: filtering a second time with the same rules
/// yields the same survivors as filtering once.
pub proof fn lemma_filter_idempotent(rules: Seq<RuleModel>, s: Seq<DeviceEntryModel>)
    ensures
        filtered(rules, filtered(rules, s)) == filtered(rules, s),
{
    lemma_filtered_elems(rules, s);
    lemma_filtered_of_unhidden(rules, filtered(rules, s));
}

/// A descriptor dropped by a matching hide rule never survives the
/// transformation, whatever buffer size the output is later cut to.
pub proof fn lemma_hidden_never_survives(rules: Seq<RuleModel>, s: Seq<DeviceEntryModel>)
    ensures
        forall|i: int|
            0 <= i < surviving(rules, s).len() ==> !hidden(rules, #[trigger] surviving(rules, s)[i]),
{
    lemma_surviving_elems(rules, s);
}

/// When the caller's capacity is smaller than the survivor count, the
/// caller receives its own capacity back as the count, the incomplete
/// status, and exactly the first `req` survivors in survivor order.
pub proof fn lemma_outcome_small_buffer(avail: Seq<usize>, req: u32)
    requires
        (req as int) < avail.len(),
    ensures
        outcome_count(avail, Some(req)) == req as int,
        outcome_status(avail, Some(req)) == crate::status::VK_INCOMPLETE,
        outcome_written(avail, Some(req)) == avail.take(req as int),
{
}

/// When the caller's capacity is at least the survivor count, the caller
/// receives the survivor count, success, and exactly the full survivor
/// list in survivor order.
pub proof fn lemma_outcome_full_buffer(avail: Seq<usize>, req: u32)
    requires
        req as int >= avail.len(),
    ensures
        outcome_count(avail, Some(req)) == avail.len() as int,
        outcome_status(avail, Some(req)) == crate::status::VK_SUCCESS,
        outcome_written(avail, Some(req)) == avail,
{
}


/// Descending order by effective priority under `rules`.
pub open spec fn sorted_desc(rules: Seq<RuleModel>, s: Seq<DeviceEntryModel>) -> bool {
    forall|i: int, j: int|
        0 <= i < j < s.len() ==> sort_key(rules, #[trigger] s[i]) >= sort_key(
            rules,
            #[trigger] s[j],
        )
}

/// Inserting into a list in descending key order keeps it in descending
/// key order.
proof fn lemma_insert_preserves_sorted(
    rules: Seq<RuleModel>,
    s: Seq<DeviceEntryModel>,
    e: DeviceEntryModel,
)
    requires
        sorted_desc(rules, s),
    ensures
        sorted_desc(rules, insert_by_priority(rules, s, e)),
    decreases s.len(),
{
    let ins = insert_by_priority(rules, s, e);
    if s.len() == 0 {
    } else if sort_key(rules, s.first()) >= sort_key(rules, e) {
        let rest = s.drop_first();
        assert forall|i: int, j: int|
            0 <= i < j < rest.len() implies sort_key(rules, #[trigger] rest[i]) >= sort_key(
            rules,
            #[trigger] rest[j],
        ) by {
            assert(rest[i] == s[i + 1]);
            assert(rest[j] == s[j + 1]);
        }
        lemma_insert_preserves_sorted(rules, rest, e);
        lemma_insert_by_priority_elems(rules, rest, e);
        let inner = insert_by_priority(rules, rest, e);
        assert forall|i: int, j: int|
            0 <= i < j < ins.len() implies sort_key(rules, #[trigger] ins[i]) >= sort_key(
            rules,
            #[trigger] ins[j],
        ) by {
            if i == 0 {
                assert(ins[0] == s.first());
                assert(ins[j] == inner[j - 1]);
                if inner[j - 1] == e {
                } else {
                    assert(rest.contains(inner[j - 1]));
                    let k = choose|k: int| 0 <= k < rest.len() && rest[k] == inner[j - 1];
                    assert(rest[k] == s[k + 1]);
                    assert(s[0] == s.first());
                    assert(sort_key(rules, s[0]) >= sort_key(rules, s[k + 1]));
                }
            } else {
                assert(ins[i] == inner[i - 1]);
                assert(ins[j] == inner[j - 1]);
            }
        }
    } else {
        assert forall|i: int, j: int|
            0 <= i < j < ins.len() implies sort_key(rules, #[trigger] ins[i]) >= sort_key(
            rules,
            #[trigger] ins[j],
        ) by {
            if i == 0 {
                assert(ins[0] == e);
                assert(ins[j] == s[j - 1]);
                assert(s[0] == s.first());
                if j > 1 {
                    assert(sort_key(rules, s[0]) >= sort_key(rules, s[j - 1]));
                }
            } else {
                assert(ins[i] == s[i - 1]);
                assert(ins[j] == s[j - 1]);
            }
        }
    }
}

/// The stable sort orders its output by descending effective priority.
proof fn lemma_sorted_by_priority_sorted(rules: Seq<RuleModel>, s: Seq<DeviceEntryModel>)
    ensures
        sorted_desc(rules, sorted_by_priority(rules, s)),
    decreases s.len(),
{
    if s.len() > 0 {
        lemma_sorted_by_priority_sorted(rules, s.drop_last());
        lemma_insert_preserves_sorted(rules, sorted_by_priority(rules, s.drop_last()), s.last());
    }
}

/// The surviving descriptors come out in descending effective-priority
/// order.
pub proof fn lemma_surviving_sorted(rules: Seq<RuleModel>, s: Seq<DeviceEntryModel>)
    ensures
        sorted_desc(rules, surviving(rules, s)),
{
    lemma_sorted_by_priority_sorted(rules, filtered(rules, s));
}


/// A list already in descending key order is a fixpoint of the stable
/// sort.
proof fn lemma_sorted_fixpoint(rules: Seq<RuleModel>, t: Seq<DeviceEntryModel>)
    requires
        sorted_desc(rules, t),
    ensures
        sorted_by_priority(rules, t) == t,
    decreases t.len(),
{
    if t.len() > 0 {
        let prefix = t.drop_last();
        assert forall|i: int, j: int|
            0 <= i < j < prefix.len() implies sort_key(rules, #[trigger] prefix[i]) >= sort_key(
            rules,
            #[trigger] prefix[j],
        ) by {
            assert(prefix[i] == t[i]);
            assert(prefix[j] == t[j]);
        }
        lemma_sorted_fixpoint(rules, prefix);
        assert forall|j: int|
            0 <= j < prefix.len() implies sort_key(rules, #[trigger] prefix[j]) >= sort_key(
            rules,
            t.last(),
        ) by {
            assert(prefix[j] == t[j]);
            assert(t[t.len() - 1] == t.last());
        }
        lemma_insert_by_priority_at(rules, prefix, t.last(), prefix.len() as int);
        assert(prefix.insert(prefix.len() as int, t.last()) =~= t);
    }
}

/// The whole transformation is idempotent: transforming its own output
/// changes nothing. In particular filtering twice yields the same
/// survivors as filtering once, and re-sorting keeps the order.
pub proof fn lemma_transformation_idempotent(rules: Seq<RuleModel>, s: Seq<DeviceEntryModel>)
    ensures
        surviving(rules, surviving(rules, s)) == surviving(rules, s),
{
    let sv = surviving(rules, s);
    lemma_surviving_elems(rules, s);
    lemma_filtered_of_unhidden(rules, sv);
    lemma_surviving_sorted(rules, s);
    lemma_sorted_fixpoint(rules, sv);
}

/// The device-name bytes: the prefix of the raw name field up to, not
/// including, its first NUL byte, or the whole field when no NUL occurs.
pub open spec fn name_prefix(b: Seq<u8>) -> Seq<u8>
    decreases b.len(),
{
    if b.len() == 0 {
        b
    } else if b.first() == 0 {
        Seq::empty()
    } else {
        seq![b.first()] + name_prefix(b.drop_first())
    }
}

/// Scanning to the first NUL byte finds exactly [`name_prefix`].
proof fn lemma_name_prefix_take(b: Seq<u8>, i: int)
    requires
        0 <= i <= b.len(),
        forall|j: int| 0 <= j < i ==> b[j] != 0,
        i < b.len() ==> b[i] == 0,
    ensures
        name_prefix(b) == b.take(i),
    decreases i,
{
    if i == 0 {
        if b.len() == 0 {
            assert(name_prefix(b) =~= b.take(0));
        } else {
            assert(b.first() == 0);
            assert(name_prefix(b) =~= b.take(0));
        }
    } else {
        assert(b[0] != 0);
        let rest = b.drop_first();
        assert forall|j: int| 0 <= j < i - 1 implies rest[j] != 0 by {
            assert(rest[j] == b[j + 1]);
        }
        assert(i - 1 < rest.len() ==> rest[i - 1] == b[i]);
        lemma_name_prefix_take(rest, i - 1);
        assert(seq![b.first()] + rest.take(i - 1) =~= b.take(i));
    }
}

/// Extracts the NUL-terminated device name bytes from the raw name field
/// of a properties blob.
pub fn device_name_bytes(raw: &Vec<u8>) -> (r: Vec<u8>)
    ensures
        r@ == name_prefix(raw@),
{
    let mut end: usize = 0;
    while end < raw.len() && raw[end] != 0
        invariant
            end <= raw@.len(),
            forall|j: int| 0 <= j < end ==> raw@[j] != 0,
        decreases raw@.len() - end,
    {
        end += 1;
    }
    let mut r: Vec<u8> = Vec::new();
    let mut i: usize = 0;
    while i < end
        invariant
            i <= end,
            end <= raw@.len(),
            r@ == raw@.take(i as int),
        decreases end - i,
    {
        r.push(raw[i]);
        proof {
            assert(raw@.take(i + 1 as int) =~= raw@.take(i as int).push(raw@[i as int]));
        }
        i += 1;
    }
    proof {
        lemma_name_prefix_take(raw@, end as int);
    }
    r
}

/// What `String::from_utf8_lossy` returns for the given bytes: a function
/// of the bytes alone.
pub uninterp spec fn utf8_lossy_of(b: Seq<u8>) -> Seq<char>;

/// Relies on `String::from_utf8_lossy`: decodes the bytes as UTF-8 with
/// invalid sequences replaced, a function of the bytes alone; an empty
/// input decodes to the empty string.
#[verifier::external_body]
fn utf8_lossy(b: &Vec<u8>) -> (r: String)
    ensures
        r@ == utf8_lossy_of(b@),
        b@.len() == 0 ==> r@.len() == 0,
{
    String::from_utf8_lossy(b.as_slice()).into_owned()
}

impl DeviceEntry {
    /// Builds the descriptor of one device from the values queried for
    /// it: its position in the raw array, the raw NUL-terminated name
    /// field of its properties, the opaque property and feature blobs,
    /// and its attached displays.
    pub fn from_device(
        arr_idx: usize,
        raw_name: &Vec<u8>,
        props: Vec<u8>,
        features: Vec<u8>,
        displays: Vec<DisplayInfo>,
    ) -> (e: DeviceEntry)
        ensures
            e@.arr_idx == arr_idx as int,
            e@.name == utf8_lossy_of(name_prefix(raw_name@)),
            e@.props == props@,
            e@.features == features@,
            e@.displays == displays@.map_values(|d: DisplayInfo| d@),
    {
        let name_bytes = device_name_bytes(raw_name);
        let name = utf8_lossy(&name_bytes);
        DeviceEntry { arr_idx, name, props, features, displays }
    }
}

/// Builds display descriptors from queried resolution pairs. The display
/// name is a placeholder left empty.
pub fn displays_from_resolutions(resolutions: &Vec<(u32, u32)>) -> (r: Vec<DisplayInfo>)
    ensures
        r@.len() == resolutions@.len(),
        forall|i: int|
            0 <= i < r@.len() ==> (#[trigger] r@[i])@.resolution == resolutions@[i]
                && r@[i]@.name.len() == 0,
{
    let mut r: Vec<DisplayInfo> = Vec::new();
    let mut i: usize = 0;
    while i < resolutions.len()
        invariant
            i <= resolutions@.len(),
            r@.len() == i,
            forall|j: int|
                0 <= j < i ==> (#[trigger] r@[j])@.resolution == resolutions@[j]
                    && r@[j]@.name.len() == 0,
        decreases resolutions@.len() - i,
    {
        let (w, h) = resolutions[i];
        r.push(DisplayInfo { name: String::new(), resolution: (w, h) });
        i += 1;
    }
    r
}

/// The graceful degradation of the display query: any failure while
/// fetching displays yields an empty display list rather than failing the
/// enclosing call.
pub fn displays_or_empty(queried: Result<Vec<DisplayInfo>, i32>) -> (r: Vec<DisplayInfo>)
    ensures
        match queried {
            Ok(v) => r == v,
            Err(_) => r@ == Seq::<DisplayInfo>::empty(),
        },
{
    match queried {
        Ok(v) => v,
        Err(_) => Vec::new(),
    }
}

} // verus!
