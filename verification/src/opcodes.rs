//! The opcode metadata registry: an immutable mapping from mnemonic text to
//! binding arity and rendering hints. Lookup is total: a mnemonic with no
//! entry resolves to a sentinel spec (arity 0, no infix symbol, no alternate
//! literal) carrying the raw mnemonic as its name, so partially understood
//! bytecode still renders.

use vstd::prelude::*;

verus! {

/// Mathematical model of an [`Opcode`]: the same fields over `Seq<char>`.
#[verifier::ext_equal]
pub struct OpcodeModel {
    pub name: Seq<char>,
    pub pops: usize,
    pub sign: Option<Seq<char>>,
    pub output: Option<Seq<char>>,
}

/// Binding and rendering metadata for one instruction mnemonic.
///
/// `name` is the mnemonic itself, `pops` the number of preceding produced
/// values the instruction consumes, `sign` an optional infix symbol, and
/// `output` an optional alternate literal used in stack-output mode.
#[derive(Debug)]
pub struct Opcode {
    pub name: String,
    pub pops: usize,
    pub sign: Option<String>,
    pub output: Option<String>,
}

impl View for Opcode {
    type V = OpcodeModel;

    open spec fn view(&self) -> OpcodeModel {
        OpcodeModel {
            name: self.name@,
            pops: self.pops,
            sign: match self.sign {
                Some(ref s) => Some(s@),
                None => None,
            },
            output: match self.output {
                Some(ref s) => Some(s@),
                None => None,
            },
        }
    }
}

/// The sentinel spec an unmatched mnemonic resolves to: arity 0, no infix
/// symbol, no alternate literal, named by the raw mnemonic itself.
pub open spec fn sentinel_model(name: Seq<char>) -> OpcodeModel {
    OpcodeModel { name: name, pops: 0, sign: None, output: None }
}

/// What registry lookup returns: the first entry whose name equals the
/// queried word, or the sentinel spec when no entry matches.
pub open spec fn lookup_model(entries: Seq<OpcodeModel>, word: Seq<char>) -> OpcodeModel
    decreases entries.len(),
{
    if entries.len() == 0 {
        sentinel_model(word)
    } else if entries[0].name == word {
        entries[0]
    } else {
        lookup_model(entries.drop_first(), word)
    }
}

/// The immutable opcode registry: an ordered table of opcode specs,
/// queried by mnemonic. Its literal contents are supplied by the caller;
/// the core only reads it.
pub struct Registry {
    pub entries: Vec<Opcode>,
}

impl View for Registry {
    type V = Seq<OpcodeModel>;

    open spec fn view(&self) -> Seq<OpcodeModel> {
        Seq::new(self.entries@.len(), |i: int| self.entries@[i]@)
    }
}

/// Character-wise string equality, phrased over the views.
pub fn eq_str(a: &str, b: &str) -> (r: bool)
    ensures
        r == (a@ == b@),
{
    let la = a.unicode_len();
    let lb = b.unicode_len();
    if la != lb {
        return false;
    }
    let mut i: usize = 0;
    while i < la
        invariant
            la == a@.len(),
            la == b@.len(),
            i <= la,
            forall|j: int| 0 <= j < i ==> a@[j] == b@[j],
        decreases la - i,
    {
        if a.get_char(i) != b.get_char(i) {
            return false;
        }
        i = i + 1;
    }
    proof {
        assert(a@ =~= b@);
    }
    true
}

/// An exact copy of an opcode spec, equal at the model level.
pub fn copy_opcode(op: &Opcode) -> (r: Opcode)
    ensures
        r@ == op@,
{
    let sign = match &op.sign {
        Some(s) => Some(s.clone()),
        None => None,
    };
    let output = match &op.output {
        Some(s) => Some(s.clone()),
        None => None,
    };
    let r = Opcode { name: op.name.clone(), pops: op.pops, sign: sign, output: output };
    proof {
        assert(r@ =~= op@);
    }
    r
}

impl Registry {
    /// An empty registry: every mnemonic resolves to the sentinel spec.
    pub fn new() -> (r: Registry)
        ensures
            r@ =~= Seq::<OpcodeModel>::empty(),
    {
        Registry { entries: Vec::new() }
    }

    /// Appends one opcode spec to the table.
    pub fn push(&mut self, op: Opcode)
        ensures
            final(self)@ =~= old(self)@.push(op@),
    {
        self.entries.push(op);
    }

    /// Total lookup: the first entry whose name is `word`, or the sentinel
    /// spec named by `word` itself when the table has no match.
    pub fn lookup(&self, word: &str) -> (r: Opcode)
        ensures
            r@ == lookup_model(self@, word@),
    {
        let n = self.entries.len();
        proof {
            assert(self@.subrange(0, n as int) =~= self@);
        }
        let mut i: usize = 0;
        while i < n
            invariant
                n == self.entries@.len(),
                i <= n,
                lookup_model(self@, word@) == lookup_model(self@.subrange(i as int, n as int), word@),
            decreases n - i,
        {
            proof {
                assert(self@.subrange(i as int, n as int)[0] == self.entries@[i as int]@);
                assert(self@.subrange(i as int, n as int).drop_first() =~= self@.subrange(
                    i as int + 1,
                    n as int,
                ));
            }
            if eq_str(self.entries[i].name.as_str(), word) {
                return copy_opcode(&self.entries[i]);
            }
            i = i + 1;
        }
        proof {
            assert(self@.subrange(n as int, n as int) =~= Seq::<OpcodeModel>::empty());
        }
        Opcode { name: word.to_owned(), pops: 0, sign: None, output: None }
    }
}

} // verus!
