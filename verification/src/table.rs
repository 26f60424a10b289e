//! All the entries of a document, and the table they make.

use vstd::prelude::*;
use crate::error::{ConversionError, ErrorKind};
use crate::grammar::{pull, Pull};
use crate::pair::{PairModel, ValueModel};
use crate::state::ParserModel;

verus! {

/// A fault as a pull reports it: its kind, and the conversion failure that
/// caused it where one did.
pub type Faulty = (ErrorKind, Option<ConversionError>);

/// The entries that successive pulls yield from the scanner `m` up to the
/// end of the document, in order, or the first fault that a pull finds.
/// Every pull that yields an entry leaves the cursor further on, within
/// the document, so that the pulls come to an end.
pub open spec fn entries(doc: Seq<u8>, m: ParserModel) -> Result<Seq<PairModel>, Faulty>
    decreases doc.len() - m.position,
{
    match pull(doc, m) {
        Pull::Pair { pair, parser } => if m.position < parser.position <= doc.len() {
            match entries(doc, parser) {
                Ok(rest) => Ok(seq![pair] + rest),
                Err(fault) => Err(fault),
            }
        } else {
            Ok(seq![pair])
        },
        Pull::End { .. } => Ok(Seq::empty()),
        Pull::Fault { kind, source } => Err((kind, source)),
    }
}

/// The table that a sequence of entries makes: each name stands for the
/// value of the last entry that bears it.
pub open spec fn table_of(pairs: Seq<PairModel>) -> Map<Seq<char>, ValueModel>
    decreases pairs.len(),
{
    if pairs.len() == 0 {
        Map::empty()
    } else {
        table_of(pairs.drop_last()).insert(pairs.last().name, pairs.last().value)
    }
}

} // verus!
