//! Symbol tables: names for the inputs, latches and labels of an AIG.

use crate::text::str_from_utf8;
use vstd::prelude::*;
use vstd::string::StringSliceAdditionalSpecFns;
use vstd::utf8::*;

verus! {

broadcast use vstd::utf8::group_utf8_lib;

/// Which list of an AIG a symbol names an entry of.
#[derive(Debug, Copy, Clone, PartialEq, Eq, Structural)]
pub enum SymbolKind {
    Output,
    Input,
    Latch,
    BadState,
    Constraint,
    Justice,
    Fairness,
}

pub open spec fn spec_from_tag(tag: u8) -> Option<SymbolKind> {
    if tag == 0x6f {
        Some(SymbolKind::Output)
    } else if tag == 0x69 {
        Some(SymbolKind::Input)
    } else if tag == 0x6c {
        Some(SymbolKind::Latch)
    } else if tag == 0x62 {
        Some(SymbolKind::BadState)
    } else if tag == 0x63 {
        Some(SymbolKind::Constraint)
    } else if tag == 0x6a {
        Some(SymbolKind::Justice)
    } else if tag == 0x66 {
        Some(SymbolKind::Fairness)
    } else {
        None
    }
}

impl SymbolKind {
    /// The letter that introduces a symbol of this kind in an AIGER file.
    pub open spec fn spec_tag(&self) -> u8 {
        match self {
            SymbolKind::Output => 0x6f,
            SymbolKind::Input => 0x69,
            SymbolKind::Latch => 0x6c,
            SymbolKind::BadState => 0x62,
            SymbolKind::Constraint => 0x63,
            SymbolKind::Justice => 0x6a,
            SymbolKind::Fairness => 0x66,
        }
    }

    /// The kind whose letter is `tag` (`o i l b c j f`), if any.
    pub fn from_tag(tag: u8) -> (r: Option<SymbolKind>)
        ensures
            r == spec_from_tag(tag),
    {
        match tag {
            0x6fu8 => Some(SymbolKind::Output),
            0x69u8 => Some(SymbolKind::Input),
            0x6cu8 => Some(SymbolKind::Latch),
            0x62u8 => Some(SymbolKind::BadState),
            0x63u8 => Some(SymbolKind::Constraint),
            0x6au8 => Some(SymbolKind::Justice),
            0x66u8 => Some(SymbolKind::Fairness),
            _ => None,
        }
    }

    /// The letter of this kind.
    #[verifier::when_used_as_spec(spec_tag)]
    pub fn tag(&self) -> (r: u8)
        ensures
            r == self.spec_tag(),
    {
        match self {
            SymbolKind::Output => 0x6fu8,
            SymbolKind::Input => 0x69u8,
            SymbolKind::Latch => 0x6cu8,
            SymbolKind::BadState => 0x62u8,
            SymbolKind::Constraint => 0x63u8,
            SymbolKind::Justice => 0x6au8,
            SymbolKind::Fairness => 0x66u8,
        }
    }

    /// Whether `tag` is the letter of some kind.
    pub fn is_tag(tag: u8) -> (r: bool)
        ensures
            r == spec_from_tag(tag) is Some,
    {
        tag == 0x6fu8 || tag == 0x69u8 || tag == 0x6cu8 || tag == 0x62u8 || tag == 0x63u8 || tag == 0x6au8
            || tag == 0x66u8
    }
}

/// Each kind's letter leads back to the kind.
pub proof fn lemma_tag_roundtrip(kind: SymbolKind)
    ensures
        spec_from_tag(kind.spec_tag()) == Some(kind),
{
}

/// The string with ID 1 is the empty string; ID `k + 2` is the `k`-th string
/// stored.
pub open spec fn symbol_valid(sym: u32, n_strings: int) -> bool {
    sym == 1 || (2 <= sym && sym < n_strings + 2)
}

/// Immutable string storage that keeps all strings in one byte buffer.
#[derive(Debug)]
pub struct StringStorage {
    /// The end offset in `bytes` of each stored string.
    pub ends: Vec<u32>,
    pub bytes: Vec<u8>,
}

impl StringStorage {
    pub open spec fn start_of(&self, k: int) -> int {
        if k == 0 {
            0
        } else {
            self.ends@[k - 1] as int
        }
    }

    pub open spec fn segment(&self, k: int) -> Seq<u8> {
        self.bytes@.subrange(self.start_of(k), self.ends@[k] as int)
    }

    pub open spec fn wf(&self) -> bool {
        &&& self.ends.len() + 2 <= u32::MAX
        &&& self.bytes.len() <= u32::MAX
        &&& self.start_of(self.ends.len() as int) == self.bytes.len()
        &&& forall|k: int| 0 <= k < self.ends.len() ==> self.start_of(k) <= #[trigger] self.ends@[k] <= self.bytes.len()
        &&& forall|k: int| 0 <= k < self.ends.len() ==> valid_utf8(#[trigger] self.segment(k))
    }

    /// The string that a valid ID stands for.
    pub open spec fn spec_get(&self, sym: u32) -> Seq<char> {
        if sym == 1 {
            Seq::empty()
        } else {
            decode_utf8(self.segment(sym - 2))
        }
    }

    /// Storage room for one more string of `len` bytes.
    pub open spec fn has_room(&self, len: int) -> bool {
        self.ends.len() + 3 <= u32::MAX && self.bytes.len() + len <= u32::MAX
    }

    pub fn new() -> (r: StringStorage)
        ensures
            r.ends@ == Seq::<u32>::empty(),
            r.bytes@ == Seq::<u8>::empty(),
            r.wf(),
    {
        StringStorage { ends: Vec::new(), bytes: Vec::new() }
    }

    /// Store a string and return its ID. The empty string is not stored.
    pub fn add_string(&mut self, value: &str) -> (r: u32)
        requires
            old(self).wf(),
            old(self).has_room(value.spec_bytes().len() as int),
        ensures
            final(self).wf(),
            symbol_valid(r, final(self).ends.len() as int),
            final(self).spec_get(r) == value@,
            value@.len() == 0 ==> final(self).ends == old(self).ends && final(self).bytes == old(self).bytes,
            value@.len() > 0 ==> final(self).ends.len() == old(self).ends.len() + 1,
            final(self).ends.len() >= old(self).ends.len(),
            final(self).ends.len() == old(self).ends.len() + if value.spec_bytes().len() > 0 {
                1int
            } else {
                0int
            },
            final(self).bytes.len() == old(self).bytes.len() + value.spec_bytes().len(),
            forall|sym: u32|
                symbol_valid(sym, old(self).ends.len() as int) ==> #[trigger] final(self).spec_get(sym)
                    == old(self).spec_get(sym),
    {
        let value_bytes = value.as_bytes();
        proof {
            encode_utf8_decode_utf8(value@);
            encode_utf8_valid_utf8(value@);
        }
        if value_bytes.len() == 0 {
            assert(value@.len() == 0) by {
                if value@.len() > 0 {
                    encode_utf8_first_scalar(value@);
                }
            }
            return 1;
        }
        let ghost old_bytes = self.bytes@;
        let ghost old_self = *self;
        let mut i: usize = 0;
        while i < value_bytes.len()
            invariant
                i <= value_bytes.len(),
                self.bytes@ == old_bytes + value_bytes@.take(i as int),
                self.ends == old_self.ends,
            decreases value_bytes.len() - i,
        {
            self.bytes.push(value_bytes[i]);
            i = i + 1;
            assert(value_bytes@.take(i as int) == value_bytes@.take(i - 1).push(value_bytes@[i - 1]));
        }
        assert(value_bytes@.take(i as int) == value_bytes@);
        let end = self.bytes.len() as u32;
        self.ends.push(end);
        let k = self.ends.len() - 1;
        assert(old_self.start_of(old_self.ends.len() as int) == old_bytes.len());
        assert(self.segment(k as int) == value_bytes@) by {
            assert(self.bytes@.subrange(old_bytes.len() as int, self.bytes.len() as int) == value_bytes@);
        }
        assert(value@.len() > 0) by {
            if value@.len() == 0 {
                assert(encode_utf8(value@) == Seq::<u8>::empty());
            }
        }
        assert forall|kk: int| 0 <= kk < old_self.ends.len() implies #[trigger] self.segment(kk)
            == old_self.segment(kk) by {
            assert(old_self.start_of(kk) <= old_self.ends@[kk] <= old_bytes.len());
        }
        assert forall|sym: u32| symbol_valid(sym, old_self.ends.len() as int) implies #[trigger] self.spec_get(
            sym,
        ) == old_self.spec_get(sym) by {
            if sym != 1 {
                assert(self.segment(sym - 2) == old_self.segment(sym - 2));
            }
        }
        (self.ends.len() + 1) as u32
    }

    /// The string that a valid ID stands for.
    pub fn get_string(&self, sym: u32) -> (r: String)
        requires
            self.wf(),
            symbol_valid(sym, self.ends.len() as int),
        ensures
            r@ == self.spec_get(sym),
    {
        if sym == 1 {
            return String::new();
        }
        let index = (sym - 2) as usize;
        let start = if index == 0 {
            0
        } else {
            self.ends[index - 1]
        } as usize;
        let end = self.ends[index] as usize;
        let slice = &self.bytes.as_slice()[start..end];
        assert(slice@ == self.segment(index as int));
        match str_from_utf8(slice) {
            Some(s) => {
                proof {
                    encode_utf8_decode_utf8(s@);
                }
                s.to_owned()
            },
            None => String::new(),
        }
    }
}

impl Default for StringStorage {
    fn default() -> (r: StringStorage)
        ensures
            r.ends@ == Seq::<u32>::empty(),
            r.bytes@ == Seq::<u8>::empty(),
            r.wf(),
    {
        StringStorage::new()
    }
}

impl Default for SymbolTable {
    fn default() -> (r: SymbolTable)
        ensures
            r.wf(),
            forall|k: SymbolKind| #[trigger] r.names(k) == Seq::<Option<Seq<char>>>::empty(),
    {
        SymbolTable::new()
    }
}

/// The entries of one symbol list that have a name, with their positions.
pub open spec fn named_entries(kind: SymbolKind, names: Seq<Option<Seq<char>>>) -> Seq<
    (SymbolKind, usize, Seq<char>),
>
    decreases names.len(),
{
    if names.len() == 0 {
        Seq::empty()
    } else {
        let rest = named_entries(kind, names.drop_last());
        match names.last() {
            Some(name) => rest.push((kind, (names.len() - 1) as usize, name)),
            None => rest,
        }
    }
}

/// The views of a list of symbol entries.
pub open spec fn entries_view(s: Seq<(SymbolKind, usize, String)>) -> Seq<(SymbolKind, usize, Seq<char>)> {
    s.map_values(|e: (SymbolKind, usize, String)| (e.0, e.1, e.2@))
}

/// `s` grown with empty slots to cover `index`, then `index` set to `v`.
pub open spec fn set_slot<T>(s: Seq<Option<T>>, index: int, v: T) -> Seq<Option<T>> {
    let grown = if s.len() <= index {
        s + Seq::new((index + 1 - s.len()) as nat, |i: int| None::<T>)
    } else {
        s
    };
    grown.update(index, Some(v))
}

/// Naming an entry makes it found under that name, and leaves the other
/// entries as they were.
pub proof fn lemma_set_slot_found<T>(s: Seq<Option<T>>, index: int, v: T)
    requires
        index >= 0,
    ensures
        set_slot(s, index, v)[index] == Some(v),
        set_slot(s, index, v).len() == if s.len() <= index { index + 1 } else { s.len() as int },
        forall|j: int| 0 <= j < s.len() && j != index ==> #[trigger] set_slot(s, index, v)[j] == s[j],
        forall|j: int| s.len() <= j < index ==> #[trigger] set_slot(s, index, v)[j] is None,
{
}

/// Symbol table of an AIG: optional names for the entries of each list.
#[derive(Debug)]
pub struct SymbolTable {
    pub strings: StringStorage,
    pub outputs: Vec<Option<u32>>,
    pub inputs: Vec<Option<u32>>,
    pub latches: Vec<Option<u32>>,
    pub bad_states: Vec<Option<u32>>,
    pub constraints: Vec<Option<u32>>,
    pub justice: Vec<Option<u32>>,
    pub fairness: Vec<Option<u32>>,
}

impl SymbolTable {
    pub open spec fn slots(&self, kind: SymbolKind) -> Seq<Option<u32>> {
        match kind {
            SymbolKind::Output => self.outputs@,
            SymbolKind::Input => self.inputs@,
            SymbolKind::Latch => self.latches@,
            SymbolKind::BadState => self.bad_states@,
            SymbolKind::Constraint => self.constraints@,
            SymbolKind::Justice => self.justice@,
            SymbolKind::Fairness => self.fairness@,
        }
    }

    pub open spec fn slots_valid(&self, s: Seq<Option<u32>>) -> bool {
        forall|i: int|
            0 <= i < s.len() && (#[trigger] s[i]) is Some ==> symbol_valid(
                s[i]->0,
                self.strings.ends.len() as int,
            )
    }

    pub open spec fn wf(&self) -> bool {
        &&& self.strings.wf()
        &&& self.slots_valid(self.outputs@)
        &&& self.slots_valid(self.inputs@)
        &&& self.slots_valid(self.latches@)
        &&& self.slots_valid(self.bad_states@)
        &&& self.slots_valid(self.constraints@)
        &&& self.slots_valid(self.justice@)
        &&& self.slots_valid(self.fairness@)
    }

    /// The names of the entries of one list.
    pub open spec fn names(&self, kind: SymbolKind) -> Seq<Option<Seq<char>>> {
        self.slots(kind).map_values(
            |o: Option<u32>|
                match o {
                    Some(sym) => Some(self.strings.spec_get(sym)),
                    None => None,
                },
        )
    }

    /// All named entries: inputs, latches, outputs, bad states, constraints,
    /// justice, fairness.
    pub open spec fn spec_symbols(&self) -> Seq<(SymbolKind, usize, Seq<char>)> {
        named_entries(SymbolKind::Input, self.names(SymbolKind::Input)) + named_entries(
            SymbolKind::Latch,
            self.names(SymbolKind::Latch),
        ) + named_entries(SymbolKind::Output, self.names(SymbolKind::Output)) + named_entries(
            SymbolKind::BadState,
            self.names(SymbolKind::BadState),
        ) + named_entries(SymbolKind::Constraint, self.names(SymbolKind::Constraint))
            + named_entries(SymbolKind::Justice, self.names(SymbolKind::Justice)) + named_entries(
            SymbolKind::Fairness,
            self.names(SymbolKind::Fairness),
        )
    }

    /// Room to name one more entry with a name of `len` bytes at `index`.
    pub open spec fn has_room(&self, index: int, len: int) -> bool {
        index < usize::MAX && self.strings.has_room(len)
    }

    /// The string storage grew by one name of `len` bytes (none if empty).
    pub open spec fn grew_by(&self, old: &SymbolTable, len: int) -> bool {
        &&& self.strings.ends.len() == old.strings.ends.len() + if len > 0 {
            1int
        } else {
            0int
        }
        &&& self.strings.bytes.len() == old.strings.bytes.len() + len
    }

    /// The list that a kind's names are stored in: justice names share the
    /// constraint list.
    pub open spec fn storage_kind(kind: SymbolKind) -> SymbolKind {
        if kind == SymbolKind::Justice {
            SymbolKind::Constraint
        } else {
            kind
        }
    }

    /// An empty symbol table.
    pub fn new() -> (r: SymbolTable)
        ensures
            r.wf(),
            forall|k: SymbolKind| #[trigger] r.names(k) == Seq::<Option<Seq<char>>>::empty(),
            forall|k: SymbolKind| #[trigger] r.slots(k) == Seq::<Option<u32>>::empty(),
            r.strings.ends@ == Seq::<u32>::empty(),
            r.strings.bytes@ == Seq::<u8>::empty(),
    {
        let r = SymbolTable {
            strings: StringStorage::new(),
            outputs: Vec::new(),
            inputs: Vec::new(),
            latches: Vec::new(),
            bad_states: Vec::new(),
            constraints: Vec::new(),
            justice: Vec::new(),
            fairness: Vec::new(),
        };
        assert forall|k: SymbolKind| #[trigger] r.names(k) == Seq::<Option<Seq<char>>>::empty() by {
            assert(r.names(k).len() == 0);
        }
        assert forall|k: SymbolKind| #[trigger] r.slots(k) == Seq::<Option<u32>>::empty() by {
            assert(r.slots(k).len() == 0);
        }
        r
    }

    /// Whether the table names no output, input or latch.
    pub fn is_empty(&self) -> (r: bool)
        ensures
            r == (self.outputs.len() == 0 && self.inputs.len() == 0 && self.latches.len() == 0),
    {
        self.outputs.len() == 0 && self.inputs.len() == 0 && self.latches.len() == 0
    }

    fn slot_list(&self, kind: SymbolKind) -> (r: &Vec<Option<u32>>)
        ensures
            r@ == self.slots(kind),
    {
        match kind {
            SymbolKind::Output => &self.outputs,
            SymbolKind::Input => &self.inputs,
            SymbolKind::Latch => &self.latches,
            SymbolKind::BadState => &self.bad_states,
            SymbolKind::Constraint => &self.constraints,
            SymbolKind::Justice => &self.justice,
            SymbolKind::Fairness => &self.fairness,
        }
    }

    /// The name of entry `index` of the list of `kind`, if it has one.
    pub fn lookup(&self, kind: SymbolKind, index: usize) -> (r: Option<String>)
        requires
            self.wf(),
        ensures
            lookup_result(self.names(kind), index as int, r),
    {
        let list = self.slot_list(kind);
        if index < list.len() {
            match list[index] {
                Some(sym) => {
                    assert(self.slots_valid(self.slots(kind)));
                    Some(self.strings.get_string(sym))
                },
                None => None,
            }
        } else {
            None
        }
    }

    /// All named entries, in the order inputs, latches, outputs, bad
    /// states, constraints, justice, fairness.
    pub fn symbols(&self) -> (r: Vec<(SymbolKind, usize, String)>)
        requires
            self.wf(),
        ensures
            entries_view(r@) == self.spec_symbols(),
    {
        let mut r: Vec<(SymbolKind, usize, String)> = Vec::new();
        self.push_entries(&mut r, SymbolKind::Input);
        self.push_entries(&mut r, SymbolKind::Latch);
        self.push_entries(&mut r, SymbolKind::Output);
        self.push_entries(&mut r, SymbolKind::BadState);
        self.push_entries(&mut r, SymbolKind::Constraint);
        self.push_entries(&mut r, SymbolKind::Justice);
        self.push_entries(&mut r, SymbolKind::Fairness);
        r
    }

    fn push_entries(&self, out: &mut Vec<(SymbolKind, usize, String)>, kind: SymbolKind)
        requires
            self.wf(),
        ensures
            entries_view(final(out)@) == entries_view(old(out)@) + named_entries(kind, self.names(kind)),
    {
        let ghost start = entries_view(out@);
        let list = self.slot_list(kind);
        let mut i: usize = 0;
        assert(self.slots_valid(self.slots(kind)));
        while i < list.len()
            invariant
                i <= list.len(),
                list@ == self.slots(kind),
                self.wf(),
                self.slots_valid(self.slots(kind)),
                entries_view(out@) == start + named_entries(kind, self.names(kind).take(i as int)),
            decreases list.len() - i,
        {
            let ghost before = out@;
            assert(self.names(kind).take(i + 1).drop_last() == self.names(kind).take(i as int));
            match list[i] {
                Some(sym) => {
                    let name = self.strings.get_string(sym);
                    out.push((kind, i, name));
                    assert(entries_view(out@) == entries_view(before).push((kind, i, name@)));
                },
                None => {},
            }
            i = i + 1;
        }
        assert(self.names(kind).take(i as int) == self.names(kind));
    }

    /// Name entry `index` of the list of `kind`, growing the list with
    /// unnamed entries as needed.
    fn set_name(&mut self, kind: SymbolKind, index: usize, name: &str)
        requires
            old(self).wf(),
            old(self).has_room(index as int, name.spec_bytes().len() as int),
        ensures
            final(self).wf(),
            final(self).grew_by(old(self), name.spec_bytes().len() as int),
            forall|k: SymbolKind| #[trigger]
                final(self).names(k) == if k == kind {
                    set_slot(old(self).names(k), index as int, name@)
                } else {
                    old(self).names(k)
                },
    {
        let ghost old_self = *self;
        let sym = self.strings.add_string(name);
        let ghost mid = *self;
        assert forall|k: SymbolKind| #[trigger] mid.names(k) == old_self.names(k) by {
            assert(old_self.slots_valid(old_self.slots(k)));
            assert(mid.names(k) =~= old_self.names(k));
        }
        assert forall|k: SymbolKind| mid.slots_valid(#[trigger] mid.slots(k)) by {
            assert(old_self.slots_valid(old_self.slots(k)));
        }
        match kind {
            SymbolKind::Output => set_slot_vec(&mut self.outputs, index, sym),
            SymbolKind::Input => set_slot_vec(&mut self.inputs, index, sym),
            SymbolKind::Latch => set_slot_vec(&mut self.latches, index, sym),
            SymbolKind::BadState => set_slot_vec(&mut self.bad_states, index, sym),
            SymbolKind::Constraint => set_slot_vec(&mut self.constraints, index, sym),
            SymbolKind::Justice => set_slot_vec(&mut self.justice, index, sym),
            SymbolKind::Fairness => set_slot_vec(&mut self.fairness, index, sym),
        }
        assert forall|k: SymbolKind| #[trigger] self.names(k) == if k == kind {
            set_slot(old_self.names(k), index as int, name@)
        } else {
            old_self.names(k)
        } by {
            if k == kind {
                assert(self.names(k) =~= set_slot(mid.names(k), index as int, name@));
            } else {
                assert(self.slots(k) == mid.slots(k));
            }
        }
        assert forall|k: SymbolKind| self.slots_valid(#[trigger] self.slots(k)) by {
            assert(mid.slots_valid(mid.slots(k)));
            if k != kind {
                assert(self.slots(k) == mid.slots(k));
            }
        }
        assert(self.slots_valid(self.outputs@) && self.slots_valid(self.inputs@));
        assert(self.slots_valid(self.slots(SymbolKind::Output)));
        assert(self.slots_valid(self.slots(SymbolKind::Input)));
        assert(self.slots_valid(self.slots(SymbolKind::Latch)));
        assert(self.slots_valid(self.slots(SymbolKind::BadState)));
        assert(self.slots_valid(self.slots(SymbolKind::Constraint)));
        assert(self.slots_valid(self.slots(SymbolKind::Justice)));
        assert(self.slots_valid(self.slots(SymbolKind::Fairness)));
    }

    /// Name entry `index` of the list of `kind`; justice names are stored
    /// in the constraint list.
    pub fn name_symbol(&mut self, kind: SymbolKind, index: usize, name: &str)
        requires
            old(self).wf(),
            old(self).has_room(index as int, name.spec_bytes().len() as int),
        ensures
            final(self).wf(),
            final(self).grew_by(old(self), name.spec_bytes().len() as int),
            forall|k: SymbolKind| #[trigger]
                final(self).names(k) == if k == SymbolTable::storage_kind(kind) {
                    set_slot(old(self).names(k), index as int, name@)
                } else {
                    old(self).names(k)
                },
    {
        match kind {
            SymbolKind::Output => self.name_output(index, name),
            SymbolKind::Input => self.name_input(index, name),
            SymbolKind::Latch => self.name_latch(index, name),
            SymbolKind::BadState => self.name_bad_state(index, name),
            SymbolKind::Constraint => self.name_constraint(index, name),
            SymbolKind::Justice => self.name_constraint(index, name),
            SymbolKind::Fairness => self.name_fairness(index, name),
        }
    }

    /// The name of entry `index` of the input list, if it has one.
    pub fn input(&self, index: usize) -> (r: Option<String>)
        requires
            self.wf(),
        ensures
            lookup_result(self.names(SymbolKind::Input), index as int, r),
    {
        self.lookup(SymbolKind::Input, index)
    }

    /// Name entry `index` of the input list.
    pub fn name_input(&mut self, index: usize, name: &str)
        requires
            old(self).wf(),
            old(self).has_room(index as int, name.spec_bytes().len() as int),
        ensures
            final(self).wf(),
            final(self).grew_by(old(self), name.spec_bytes().len() as int),
            forall|k: SymbolKind| #[trigger]
                final(self).names(k) == if k == SymbolKind::Input {
                    set_slot(old(self).names(k), index as int, name@)
                } else {
                    old(self).names(k)
                },
    {
        self.set_name(SymbolKind::Input, index, name)
    }

    /// The name of entry `index` of the latch list, if it has one.
    pub fn latch(&self, index: usize) -> (r: Option<String>)
        requires
            self.wf(),
        ensures
            lookup_result(self.names(SymbolKind::Latch), index as int, r),
    {
        self.lookup(SymbolKind::Latch, index)
    }

    /// Name entry `index` of the latch list.
    pub fn name_latch(&mut self, index: usize, name: &str)
        requires
            old(self).wf(),
            old(self).has_room(index as int, name.spec_bytes().len() as int),
        ensures
            final(self).wf(),
            final(self).grew_by(old(self), name.spec_bytes().len() as int),
            forall|k: SymbolKind| #[trigger]
                final(self).names(k) == if k == SymbolKind::Latch {
                    set_slot(old(self).names(k), index as int, name@)
                } else {
                    old(self).names(k)
                },
    {
        self.set_name(SymbolKind::Latch, index, name)
    }

    /// The name of entry `index` of the output list, if it has one.
    pub fn output(&self, index: usize) -> (r: Option<String>)
        requires
            self.wf(),
        ensures
            lookup_result(self.names(SymbolKind::Output), index as int, r),
    {
        self.lookup(SymbolKind::Output, index)
    }

    /// Name entry `index` of the output list.
    pub fn name_output(&mut self, index: usize, name: &str)
        requires
            old(self).wf(),
            old(self).has_room(index as int, name.spec_bytes().len() as int),
        ensures
            final(self).wf(),
            final(self).grew_by(old(self), name.spec_bytes().len() as int),
            forall|k: SymbolKind| #[trigger]
                final(self).names(k) == if k == SymbolKind::Output {
                    set_slot(old(self).names(k), index as int, name@)
                } else {
                    old(self).names(k)
                },
    {
        self.set_name(SymbolKind::Output, index, name)
    }

    /// The name of entry `index` of the bad state list, if it has one.
    pub fn bad_state(&self, index: usize) -> (r: Option<String>)
        requires
            self.wf(),
        ensures
            lookup_result(self.names(SymbolKind::BadState), index as int, r),
    {
        self.lookup(SymbolKind::BadState, index)
    }

    /// Name entry `index` of the bad state list.
    pub fn name_bad_state(&mut self, index: usize, name: &str)
        requires
            old(self).wf(),
            old(self).has_room(index as int, name.spec_bytes().len() as int),
        ensures
            final(self).wf(),
            final(self).grew_by(old(self), name.spec_bytes().len() as int),
            forall|k: SymbolKind| #[trigger]
                final(self).names(k) == if k == SymbolKind::BadState {
                    set_slot(old(self).names(k), index as int, name@)
                } else {
                    old(self).names(k)
                },
    {
        self.set_name(SymbolKind::BadState, index, name)
    }

    /// The name of entry `index` of the constraint list, if it has one.
    pub fn constraint(&self, index: usize) -> (r: Option<String>)
        requires
            self.wf(),
        ensures
            lookup_result(self.names(SymbolKind::Constraint), index as int, r),
    {
        self.lookup(SymbolKind::Constraint, index)
    }

    /// Name entry `index` of the constraint list.
    pub fn name_constraint(&mut self, index: usize, name: &str)
        requires
            old(self).wf(),
            old(self).has_room(index as int, name.spec_bytes().len() as int),
        ensures
            final(self).wf(),
            final(self).grew_by(old(self), name.spec_bytes().len() as int),
            forall|k: SymbolKind| #[trigger]
                final(self).names(k) == if k == SymbolKind::Constraint {
                    set_slot(old(self).names(k), index as int, name@)
                } else {
                    old(self).names(k)
                },
    {
        self.set_name(SymbolKind::Constraint, index, name)
    }

    /// The name of entry `index` of the justice list, if it has one.
    pub fn justice(&self, index: usize) -> (r: Option<String>)
        requires
            self.wf(),
        ensures
            lookup_result(self.names(SymbolKind::Justice), index as int, r),
    {
        self.lookup(SymbolKind::Justice, index)
    }

    /// Name entry `index` of the justice list.
    pub fn name_justice(&mut self, index: usize, name: &str)
        requires
            old(self).wf(),
            old(self).has_room(index as int, name.spec_bytes().len() as int),
        ensures
            final(self).wf(),
            final(self).grew_by(old(self), name.spec_bytes().len() as int),
            forall|k: SymbolKind| #[trigger]
                final(self).names(k) == if k == SymbolKind::Justice {
                    set_slot(old(self).names(k), index as int, name@)
                } else {
                    old(self).names(k)
                },
    {
        self.set_name(SymbolKind::Justice, index, name)
    }

    /// The name of entry `index` of the fairness list, if it has one.
    pub fn fairness(&self, index: usize) -> (r: Option<String>)
        requires
            self.wf(),
        ensures
            lookup_result(self.names(SymbolKind::Fairness), index as int, r),
    {
        self.lookup(SymbolKind::Fairness, index)
    }

    /// Name entry `index` of the fairness list.
    pub fn name_fairness(&mut self, index: usize, name: &str)
        requires
            old(self).wf(),
            old(self).has_room(index as int, name.spec_bytes().len() as int),
        ensures
            final(self).wf(),
            final(self).grew_by(old(self), name.spec_bytes().len() as int),
            forall|k: SymbolKind| #[trigger]
                final(self).names(k) == if k == SymbolKind::Fairness {
                    set_slot(old(self).names(k), index as int, name@)
                } else {
                    old(self).names(k)
                },
    {
        self.set_name(SymbolKind::Fairness, index, name)
    }
}

/// `r` is the name of entry `index` of `names`, or `None` where it has none.
pub open spec fn lookup_result(names: Seq<Option<Seq<char>>>, index: int, r: Option<String>) -> bool {
    match r {
        Some(s) => 0 <= index < names.len() && names[index] == Some(s@),
        None => !(0 <= index < names.len()) || names[index] is None,
    }
}

fn set_slot_vec(v: &mut Vec<Option<u32>>, index: usize, sym: u32)
    requires
        index < usize::MAX,
    ensures
        final(v)@ == set_slot(old(v)@, index as int, sym),
{
    let ghost start = v@;
    if v.len() <= index {
        while v.len() <= index
            invariant
                start.len() <= v.len() <= index + 1,
                v@ == start + Seq::new((v.len() - start.len()) as nat, |i: int| None::<u32>),
            decreases index + 1 - v.len(),
        {
            v.push(None);
        }
    }
    v.set(index, Some(sym));
}

} // verus!
