use vstd::prelude::*;
use crate::Error;
use crate::value::{Value, ValSpec, basic_val, view_list, val_view, bytes_eq,
    lemma_view_list_index, lemma_view_list_len};

verus! {

/// A dictionary built from decoded dict entries.  Insertion order is
/// kept for serialization; lookup resolves duplicate keys to the last
/// entry with that key.
pub struct Dict {
    pub entries: Vec<(Value, Value)>,
}

pub open spec fn view_pairs(es: Seq<(Value, Value)>, i: int) -> Seq<(ValSpec, ValSpec)>
    decreases es.len() - i,
{
    if 0 <= i < es.len() {
        seq![(val_view(es[i].0), val_view(es[i].1))] + view_pairs(es, i + 1)
    } else {
        Seq::<(ValSpec, ValSpec)>::empty()
    }
}

pub proof fn lemma_view_pairs_index(es: Seq<(Value, Value)>, i: int, k: int)
    requires
        0 <= i <= k < es.len(),
    ensures
        #[trigger] view_pairs(es, i)[k - i] == (val_view(es[k].0), val_view(es[k].1)),
        view_pairs(es, i).len() == es.len() - i,
    decreases es.len() - i,
{
    lemma_view_pairs_len(es, i);
    if i < k {
        lemma_view_pairs_index(es, i + 1, k);
    }
}

pub proof fn lemma_view_pairs_len(es: Seq<(Value, Value)>, i: int)
    requires
        0 <= i <= es.len(),
    ensures
        view_pairs(es, i).len() == es.len() - i,
    decreases es.len() - i,
{
    if i < es.len() {
        lemma_view_pairs_len(es, i + 1);
    }
}

/// The value for `key`, taking the last entry with an equal key: later
/// entries overwrite earlier ones.
pub open spec fn dict_lookup(ps: Seq<(ValSpec, ValSpec)>, key: ValSpec) -> Option<ValSpec>
    decreases ps.len(),
{
    if ps.len() == 0 {
        None
    } else if ps.last().0 == key {
        Some(ps.last().1)
    } else {
        dict_lookup(ps.drop_last(), key)
    }
}

/// Equality of two basic (non-container) values.
pub fn basic_value_eq(a: &Value, b: &Value) -> (r: bool)
    ensures
        basic_val(a@) && basic_val(b@) ==> r == (a@ == b@),
{
    match (a, b) {
        (Value::Byte(x), Value::Byte(y)) => x == y,
        (Value::Bool(x), Value::Bool(y)) => x == y,
        (Value::Int16(x), Value::Int16(y)) => x == y,
        (Value::Uint16(x), Value::Uint16(y)) => x == y,
        (Value::Int32(x), Value::Int32(y)) => x == y,
        (Value::Uint32(x), Value::Uint32(y)) => x == y,
        (Value::Int64(x), Value::Int64(y)) => x == y,
        (Value::Uint64(x), Value::Uint64(y)) => x == y,
        (Value::Str(x), Value::Str(y)) => bytes_eq(x, y),
        (Value::ObjectPath(x), Value::ObjectPath(y)) => bytes_eq(x, y),
        (Value::SignatureStr(x), Value::SignatureStr(y)) => bytes_eq(x, y),
        _ => false,
    }
}

impl Dict {
    /// Consumes a sequence of dict-entry values, as an `a{kv}` body
    /// term decodes into, keeping their order.  Fails with
    /// `SignatureMismatch` when some element is not a dict entry.
    pub fn from_entries(es: Vec<Value>) -> (r: Result<Dict, Error>)
        ensures
            r matches Ok(d) ==> {
                &&& d.entries@.len() == es@.len()
                &&& forall|k: int| 0 <= k < es@.len() ==> #[trigger] view_list(es@, 0)[k]
                    == ValSpec::DictEntry(
                    Box::new(view_pairs(d.entries@, 0)[k].0),
                    Box::new(view_pairs(d.entries@, 0)[k].1),
                )
            },
            r matches Err(e) ==> e == Error::SignatureMismatch && exists|k: int| 0 <= k
                < view_list(es@, 0).len() && !(#[trigger] view_list(es@, 0)[k] is DictEntry),
    {
        let mut entries: Vec<(Value, Value)> = Vec::new();
        proof {
            lemma_view_list_len(es@, 0);
        }
        let mut k: usize = 0;
        while k < es.len()
            invariant
                k <= es@.len(),
                entries@.len() == k,
                view_list(es@, 0).len() == es@.len(),
                forall|i: int| 0 <= i < k ==> #[trigger] view_list(es@, 0)[i]
                    == ValSpec::DictEntry(
                    Box::new(view_pairs(entries@, 0)[i].0),
                    Box::new(view_pairs(entries@, 0)[i].1),
                ),
            decreases es@.len() - k,
        {
            proof {
                lemma_view_list_index(es@, 0, k as int);
                lemma_view_pairs_len(entries@, 0);
            }
            let (kv, vv) = match &es[k] {
                Value::DictEntry(kb, vb) => (kb.deep_clone(), vb.deep_clone()),
                _ => {
                    proof {
                        assert(!(view_list(es@, 0)[k as int] is DictEntry));
                    }
                    return Err(Error::SignatureMismatch);
                }
            };
            proof {
                let ghost olde = entries@;
                lemma_view_pairs_len(olde.push((kv, vv)), 0);
                assert forall|i: int| 0 <= i < olde.len() implies #[trigger] view_pairs(
                    olde.push((kv, vv)), 0)[i] == view_pairs(olde, 0)[i] by {
                    lemma_view_pairs_index(olde.push((kv, vv)), 0, i);
                    lemma_view_pairs_index(olde, 0, i);
                }
                lemma_view_pairs_index(olde.push((kv, vv)), 0, olde.len() as int);
            }
            entries.push((kv, vv));
            k = k + 1;
        }
        Ok(Dict { entries })
    }

    /// The mapping as stored: the ordered entries that lookups resolve
    /// with a last-wins rule.
    pub fn inner(&self) -> (r: &Vec<(Value, Value)>)
        ensures
            r == &self.entries,
    {
        &self.entries
    }

    /// The number of entries, duplicates included.
    pub fn len(&self) -> (r: usize)
        ensures
            r == self.entries@.len(),
    {
        self.entries.len()
    }

    /// Looks `key` up, later entries overwriting earlier ones with an
    /// equal key; keys of dict entries are basic values.
    pub fn get(&self, key: &Value) -> (r: Option<&Value>)
        requires
            basic_val(key@),
            forall|i: int| 0 <= i < self.entries@.len() ==> basic_val(
                #[trigger] view_pairs(self.entries@, 0)[i].0),
        ensures
            r matches Some(v) ==> dict_lookup(view_pairs(self.entries@, 0), key@) == Some(v@),
            r is None ==> dict_lookup(view_pairs(self.entries@, 0), key@) is None,
    {
        proof {
            lemma_view_pairs_len(self.entries@, 0);
            assert(view_pairs(self.entries@, 0).take(self.entries@.len() as int)
                =~= view_pairs(self.entries@, 0));
        }
        let mut i: usize = self.entries.len();
        while i > 0
            invariant
                i <= self.entries@.len(),
                view_pairs(self.entries@, 0).len() == self.entries@.len(),
                basic_val(key@),
                forall|k: int| 0 <= k < self.entries@.len() ==> basic_val(
                    #[trigger] view_pairs(self.entries@, 0)[k].0),
                dict_lookup(view_pairs(self.entries@, 0), key@) == dict_lookup(
                    view_pairs(self.entries@, 0).take(i as int), key@),
            decreases i,
        {
            i = i - 1;
            proof {
                lemma_view_pairs_index(self.entries@, 0, i as int);
                assert(view_pairs(self.entries@, 0).take(i + 1).last() == view_pairs(
                    self.entries@, 0)[i as int]);
                assert(view_pairs(self.entries@, 0).take(i + 1).drop_last() =~= view_pairs(
                    self.entries@, 0).take(i as int));
            }
            if basic_value_eq(&self.entries[i].0, key) {
                return Some(&self.entries[i].1);
            }
        }
        proof {
            assert(view_pairs(self.entries@, 0).take(0) =~= Seq::<(ValSpec,
                ValSpec)>::empty());
        }
        None
    }
}

} // verus!
