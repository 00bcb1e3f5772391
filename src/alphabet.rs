//! The nucleotide alphabet with IUPAC ambiguity codes, upper case only,
//! ordered by byte value.
use vstd::prelude::*;

verus! {

/// The separator that ends each indexed text; smaller than every symbol.
pub const SENTINEL: u8 = 36;

/// The symbols in their total order: A B C D G H K M N R S T V W Y Z.
pub open spec fn symbols() -> Seq<u8> {
    seq![65u8, 66, 67, 68, 71, 72, 75, 77, 78, 82, 83, 84, 86, 87, 89, 90]
}

pub open spec fn is_symbol(b: u8) -> bool {
    symbols().contains(b)
}

/// Every byte of `s` is a symbol of the alphabet.
pub open spec fn is_word(s: Seq<u8>) -> bool {
    forall|k: int| 0 <= k < s.len() ==> is_symbol(#[trigger] s[k])
}

/// A byte outside the alphabet.
#[derive(Clone, Copy, Debug, PartialEq, Eq, Structural)]
pub struct InvalidSymbolError {
    pub symbol: u8,
}

/// Every symbol is greater than the sentinel.
pub proof fn lemma_symbol_above_sentinel(b: u8)
    requires
        is_symbol(b),
    ensures
        b > SENTINEL,
{
    let i = choose|i: int| 0 <= i < symbols().len() && symbols()[i] == b;
    assert(0 <= i < 16);
}

fn symbol_table() -> (r: [u8; 16])
    ensures
        r@ == symbols(),
{
    let r: [u8; 16] = [65, 66, 67, 68, 71, 72, 75, 77, 78, 82, 83, 84, 86, 87, 89, 90];
    assert(r@ =~= symbols());
    r
}

/// The position of `symbol` in the alphabet's order.
pub fn rank(symbol: u8) -> (r: Result<usize, InvalidSymbolError>)
    ensures
        match r {
            Ok(i) => i < symbols().len() && symbols()[i as int] == symbol,
            Err(e) => !is_symbol(symbol) && e.symbol == symbol,
        },
{
    let table = symbol_table();
    let mut i: usize = 0;
    while i < 16
        invariant
            i <= 16,
            table@ == symbols(),
            forall|k: int| 0 <= k < i ==> symbols()[k] != symbol,
        decreases 16 - i,
    {
        if table[i] == symbol {
            return Ok(i);
        }
        i += 1;
    }
    Err(InvalidSymbolError { symbol })
}

pub fn is_alphabet_symbol(b: u8) -> (r: bool)
    ensures
        r == is_symbol(b),
{
    rank(b).is_ok()
}

/// Whether every byte of `seq` is a symbol of the alphabet.
pub fn validate(seq: &[u8]) -> (r: bool)
    ensures
        r == is_word(seq@),
{
    let mut k: usize = 0;
    while k < seq.len()
        invariant
            k <= seq.len(),
            forall|j: int| 0 <= j < k ==> is_symbol(#[trigger] seq@[j]),
        decreases seq.len() - k,
    {
        if !is_alphabet_symbol(seq[k]) {
            return false;
        }
        k += 1;
    }
    true
}

} // verus!
