use vstd::prelude::*;

verus! {

/// A descriptor key `F-X-Y`: `f` selects the class (0 element, 1 replication,
/// 2 operator, 3 sequence), `x` and `y` select the entry.
#[derive(Debug, Clone, Copy, PartialEq, Eq, Structural)]
pub struct DescKey {
    pub f: u8,
    pub x: u8,
    pub y: u8,
}

/// The reference-value change terminator `2-3-255`.
pub open spec fn is_ref_terminator(k: DescKey) -> bool {
    k.f == 2 && k.x == 3 && k.y == 255
}

/// The descriptor encoded by the two bytes `b0 b1` of section 3: `F` is the top
/// two bits of `b0`, `X` its low six bits and `Y` is `b1`.
pub fn bytes_desc(b0: u8, b1: u8) -> (r: DescKey)
    ensures
        r.f as int == b0 as int / 64,
        r.x as int == b0 as int % 64,
        r.y == b1,
        r.f <= 3,
        r.x <= 63,
{
    DescKey { f: b0 / 64, x: b0 % 64, y: b1 }
}

/// An element descriptor (a Table B record).
pub struct ElementDescriptor {
    pub key: DescKey,
    pub description: String,
    pub unit: String,
    pub scale: i64,
    pub reference: i64,
    pub width: u32,
}

/// A sequence descriptor (a Table D record): the keys it expands to, in order.
pub struct SequenceDescriptor {
    pub key: DescKey,
    pub children: Vec<DescKey>,
}

/// Index of the last record of `t` with key `k`.
pub open spec fn last_element_index(t: Seq<ElementDescriptor>, k: DescKey) -> Option<int>
    decreases t.len(),
{
    if t.len() == 0 {
        None
    } else if t.last().key == k {
        Some(t.len() - 1)
    } else {
        last_element_index(t.drop_last(), k)
    }
}

/// Index of the last record of `t` with key `k`.
pub open spec fn last_sequence_index(t: Seq<SequenceDescriptor>, k: DescKey) -> Option<int>
    decreases t.len(),
{
    if t.len() == 0 {
        None
    } else if t.last().key == k {
        Some(t.len() - 1)
    } else {
        last_sequence_index(t.drop_last(), k)
    }
}

proof fn lemma_last_element_index(t: Seq<ElementDescriptor>, k: DescKey, n: int)
    requires
        0 <= n <= t.len(),
        forall|j: int| n <= j < t.len() ==> t[j].key != k,
    ensures
        last_element_index(t, k) == last_element_index(t.subrange(0, n), k),
    decreases t.len() - n,
{
    if n < t.len() {
        assert(t.last().key != k);
        lemma_last_element_index(t.drop_last(), k, n);
        assert(t.drop_last().subrange(0, n) == t.subrange(0, n));
    } else {
        assert(t.subrange(0, n) == t);
    }
}

proof fn lemma_last_sequence_index(t: Seq<SequenceDescriptor>, k: DescKey, n: int)
    requires
        0 <= n <= t.len(),
        forall|j: int| n <= j < t.len() ==> t[j].key != k,
    ensures
        last_sequence_index(t, k) == last_sequence_index(t.subrange(0, n), k),
    decreases t.len() - n,
{
    if n < t.len() {
        assert(t.last().key != k);
        lemma_last_sequence_index(t.drop_last(), k, n);
        assert(t.drop_last().subrange(0, n) == t.subrange(0, n));
    } else {
        assert(t.subrange(0, n) == t);
    }
}

/// Position of the last record of `t` with key `k`: a later record overrides
/// an earlier one.
pub fn find_element(t: &Vec<ElementDescriptor>, k: DescKey) -> (r: Option<usize>)
    ensures
        r matches Some(i) ==> i < t@.len() && t@[i as int].key == k,
        match last_element_index(t@, k) {
            Some(i) => r is Some && r.unwrap() as int == i,
            None => r is None,
        },
{
    let mut i: usize = t.len();
    while i > 0
        invariant
            i <= t@.len(),
            forall|j: int| i <= j < t@.len() ==> t@[j].key != k,
        decreases i,
    {
        if t[i - 1].key == k {
            proof {
                lemma_last_element_index(t@, k, i as int);
            }
            return Some(i - 1);
        }
        i = i - 1;
    }
    proof {
        lemma_last_element_index(t@, k, 0);
    }
    None
}

/// Position of the last record of `t` with key `k`: a later record overrides
/// an earlier one.
pub fn find_sequence(t: &Vec<SequenceDescriptor>, k: DescKey) -> (r: Option<usize>)
    ensures
        r matches Some(i) ==> i < t@.len() && t@[i as int].key == k,
        match last_sequence_index(t@, k) {
            Some(i) => r is Some && r.unwrap() as int == i,
            None => r is None,
        },
{
    let mut i: usize = t.len();
    while i > 0
        invariant
            i <= t@.len(),
            forall|j: int| i <= j < t@.len() ==> t@[j].key != k,
        decreases i,
    {
        if t[i - 1].key == k {
            proof {
                lemma_last_sequence_index(t@, k, i as int);
            }
            return Some(i - 1);
        }
        i = i - 1;
    }
    proof {
        lemma_last_sequence_index(t@, k, 0);
    }
    None
}

/// The master (WMO) and local (centre) tables of one message.
pub struct Tables {
    pub master_b: Vec<ElementDescriptor>,
    pub master_d: Vec<SequenceDescriptor>,
    pub local_b: Vec<ElementDescriptor>,
    pub local_d: Vec<SequenceDescriptor>,
}

/// The element that `k` resolves to. Tables are searched in the order local
/// B, local D, master B, master D: a key that the local Table D defines (and
/// the local Table B does not) resolves to no element.
pub open spec fn element_of(t: Tables, k: DescKey) -> Option<ElementDescriptor> {
    match last_element_index(t.local_b@, k) {
        Some(i) => Some(t.local_b@[i]),
        None => if last_sequence_index(t.local_d@, k) is Some {
            None
        } else {
            match last_element_index(t.master_b@, k) {
                Some(i) => Some(t.master_b@[i]),
                None => None,
            }
        },
    }
}

/// The children that `k` expands to: the local Table D first, then the master one.
pub open spec fn sequence_of(t: Tables, k: DescKey) -> Option<Seq<DescKey>> {
    match last_sequence_index(t.local_d@, k) {
        Some(i) => Some(t.local_d@[i].children@),
        None => match last_sequence_index(t.master_d@, k) {
            Some(i) => Some(t.master_d@[i].children@),
            None => None,
        },
    }
}

impl Tables {
    /// Tables with no record: every key is unknown.
    pub fn empty() -> (r: Tables)
        ensures
            r.master_b@.len() == 0,
            r.master_d@.len() == 0,
            r.local_b@.len() == 0,
            r.local_d@.len() == 0,
    {
        Tables { master_b: Vec::new(), master_d: Vec::new(), local_b: Vec::new(), local_d: Vec::new() }
    }

    /// Resolves `k` to an element descriptor (see `element_of`).
    pub fn lookup_element(&self, k: DescKey) -> (r: Option<&ElementDescriptor>)
        ensures
            r.is_some() == element_of(*self, k).is_some(),
            r.is_some() ==> *r.unwrap() == element_of(*self, k).unwrap(),
    {
        match find_element(&self.local_b, k) {
            Some(i) => Some(&self.local_b[i]),
            None => {
                if find_sequence(&self.local_d, k).is_some() {
                    return None;
                }
                match find_element(&self.master_b, k) {
                    Some(i) => Some(&self.master_b[i]),
                    None => None,
                }
            },
        }
    }

    /// Resolves `k` to the children of a sequence descriptor, local table first.
    pub fn lookup_sequence(&self, k: DescKey) -> (r: Option<&Vec<DescKey>>)
        ensures
            r.is_some() == sequence_of(*self, k).is_some(),
            r.is_some() ==> r.unwrap()@ == sequence_of(*self, k).unwrap(),
    {
        match find_sequence(&self.local_d, k) {
            Some(i) => Some(&self.local_d[i].children),
            None => match find_sequence(&self.master_d, k) {
                Some(i) => Some(&self.master_d[i].children),
                None => None,
            },
        }
    }
}

} // verus!
