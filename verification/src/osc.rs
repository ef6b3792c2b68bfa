//! The fields of operating system commands: the diff-line-metadata records
//! (OSC 1717) a renderer annotates its rows with.

use crate::text;
use vstd::prelude::*;

verus! {

/// Whether a field is a single character.
pub open spec fn is_code(field: Seq<u8>, code: u8) -> bool {
    field.len() == 1 && field[0] == code
}

/// Whether a command is a diff-line-metadata one.
pub open spec fn is_metadata(fields: Seq<Seq<u8>>) -> bool {
    fields.len() > 0 && fields[0] == seq![0x31u8, 0x37u8, 0x31u8, 0x37u8]
}

/// Whether a metadata command says only which protocol version is spoken.
pub open spec fn is_handshake(fields: Seq<Seq<u8>>) -> bool {
    is_metadata(fields) && fields.len() == 2
}

/// Whether a metadata command describes a row: version, type, new line, old
/// line and a name, which may itself be several fields.
pub open spec fn is_record(fields: Seq<Seq<u8>>) -> bool {
    is_metadata(fields) && fields.len() >= 6
}

/// Fields that were one text with `;` in it.
pub open spec fn rejoined(fields: Seq<Seq<u8>>) -> Seq<char>
    decreases fields.len(),
{
    if fields.len() == 0 {
        seq![]
    } else if fields.len() == 1 {
        text::utf8_lossy(fields[0])
    } else {
        rejoined(fields.drop_last()).push(';') + text::utf8_lossy(fields.last())
    }
}

/// Whether a field is a single character.
pub fn field_is(field: &Vec<u8>, code: u8) -> (is: bool)
    ensures
        is == is_code(field@, code),
{
    field.len() == 1 && field[0] == code
}

/// Whether a field names the diff-line-metadata protocol.
pub fn names_metadata(field: &Vec<u8>) -> (is: bool)
    ensures
        is == (field@ == seq![0x31u8, 0x37u8, 0x31u8, 0x37u8]),
{
    let is = field.len() == 4 && field[0] == 0x31 && field[1] == 0x37 && field[2] == 0x31
        && field[3] == 0x37;
    proof {
        if is {
            assert(field@ =~= seq![0x31u8, 0x37u8, 0x31u8, 0x37u8]);
        }
    }
    is
}

/// The fields from `from` on as the one text they were.
pub fn rejoin(fields: &Vec<Vec<u8>>, from: usize) -> (joined: String)
    requires
        from <= fields@.len(),
    ensures
        joined@ == rejoined(crate::ansi::field_views(fields@).skip(from as int)),
{
    let mut joined = String::new();
    let ghost parts = crate::ansi::field_views(fields@).skip(from as int);
    let mut i: usize = from;
    proof {
        assert(joined@ =~= Seq::<char>::empty());
        assert(parts.take(0) =~= Seq::<Seq<u8>>::empty());
    }
    while i < fields.len()
        invariant
            from <= i <= fields@.len(),
            parts == crate::ansi::field_views(fields@).skip(from as int),
            joined@ == rejoined(parts.take(i - from)),
        decreases fields@.len() - i,
    {
        let ghost next = parts.take(i - from + 1);
        proof {
            assert(next.drop_last() =~= parts.take(i - from));
            assert(next.last() == fields@[i as int]@);
        }
        if i > from {
            joined.push(';');
        }
        let part = text::lossy(fields[i].as_slice());
        let ghost before = joined@;
        joined.push_str(part.as_str());
        proof {
            if i == from {
                assert(joined@ =~= part@);
            }
        }
        i += 1;
    }
    proof {
        assert(parts.take(parts.len() as int) =~= parts);
    }
    joined
}

} // verus!
