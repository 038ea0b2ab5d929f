use vstd::prelude::*;
use vstd::slice::{slice_subrange, slice_to_vec};

verus! {

// Structured field introducer: SFLength(2) + SFTypeID(3) + FlagByte(1) +
// Reserved(2). SFLength counts itself but not the X'5A' framing byte.
pub const SFI_LEN: u64 = 8;
pub const MIN_SF_LEN: u64 = 8;
/// Flag bit 0: an SFI extension follows the introducer.
pub const FLAG_EXTENSION: u8 = 0x80;
/// Flag bit 4: padding is appended after the data.
pub const FLAG_PADDING: u8 = 0x08;
/// The X'5A' carriage control byte that frames each record on most platforms.
pub const FRAME_BYTE: u8 = 0x5a;

/// The longest a structured field can be: SFLength is two bytes.
pub const MAX_SF_LEN: u64 = 0xffff;

/// A structured field as the dump reads it: its type id and its data, with
/// the introducer, any SFI extension and any padding taken off.
#[derive(Debug)]
pub struct SfRecord {
    pub type_id: [u8; 3],
    pub data: Vec<u8>,
}

/// Reading a record needed a byte past the end of the file.
#[derive(Debug, Clone, Copy, PartialEq, Eq, Structural)]
pub enum RecordError {
    PastEndOfFile,
}

/// The padding of the data of a record: its length is in the last byte, or,
/// when that byte is X'00', in the two bytes before it. Data whose padding
/// length is zero or longer than the data is left as it is.
pub open spec fn padding_stripped(data: Seq<u8>) -> Seq<u8> {
    let n = data.len() as int;
    if n == 0 {
        data
    } else {
        let pad: int = if data[n - 1] == 0 {
            if n < 3 {
                0
            } else {
                data[n - 3] * 256 + data[n - 2]
            }
        } else {
            data[n - 1] as int
        };
        if pad > 0 && pad <= n {
            data.subrange(0, n - pad)
        } else {
            data
        }
    }
}

/// Taking the padding off only ever shortens the data: what is left is a
/// prefix of it.
pub proof fn lemma_padding_leaves_a_prefix(data: Seq<u8>)
    ensures
        padding_stripped(data).len() <= data.len(),
        padding_stripped(data) == data.subrange(0, padding_stripped(data).len() as int),
{
    assert(data == data.subrange(0, data.len() as int));
}

/// Takes the trailing padding off the data of a record.
pub fn strip_padding(data: &mut Vec<u8>)
    ensures
        final(data)@ == padding_stripped(old(data)@),
{
    let n = data.len();
    if n == 0 {
        return ;
    }
    let pad: usize = if data[n - 1] == 0x00 {
        if n < 3 {
            return ;
        }
        (data[n - 3] as usize) * 256 + data[n - 2] as usize
    } else {
        data[n - 1] as usize
    };
    if pad > 0 && pad <= n {
        data.truncate(n - pad);
    }
}

/// Whether the file's records carry the X'5A' framing byte, from its first
/// byte(s). The framing is platform framing, not architecture, so it is
/// sniffed once rather than assumed.
pub fn is_framed(prefix: &[u8]) -> (b: bool)
    ensures
        b == (prefix@.len() > 0 && prefix@[0] == FRAME_BYTE),
{
    prefix.len() > 0 && prefix[0] == FRAME_BYTE
}

/// The file byte at offset `p`, from the window of the file that starts at
/// offset `base`.
pub open spec fn byte_at(window: Seq<u8>, base: int, p: int) -> u8 {
    window[p - base]
}

/// The file bytes at offsets `from .. to`, from the window that starts at
/// offset `base`.
pub open spec fn bytes_at(window: Seq<u8>, base: int, from: int, to: int) -> Seq<u8> {
    window.subrange(from - base, to - base)
}

/// The window starting at `base` holds every byte that reading the record
/// whose type id is at `id` can look at: from the framing byte before the
/// introducer up to the byte after the longest record, or the end of the
/// file.
pub open spec fn window_covers(window: Seq<u8>, base: int, file_size: int, id: int) -> bool {
    &&& 0 <= base
    &&& base + window.len() <= file_size
    &&& base <= (if id >= 3 {
        id - 3
    } else {
        0
    })
    &&& base + window.len() >= (if id < 2 {
        0
    } else if id - 2 + 0x10000 < file_size {
        id - 2 + 0x10000
    } else {
        file_size
    })
}

/// The record whose type id sits at file offset `id`, or `None` where the
/// bytes around it do not frame a real record: the same three bytes can
/// occur inside image or text payloads. The type id is `(type id, data)`.
pub open spec fn record_at(window: Seq<u8>, base: int, file_size: int, id: int, framed: bool) -> Result<
    Option<(Seq<u8>, Seq<u8>)>,
    RecordError,
> {
    // SFLength sits immediately before the type id
    if id < 2 {
        Ok(None)
    } else if framed && id < 3 {
        Ok(None)
    } else if framed && id - 3 >= file_size {
        Err(RecordError::PastEndOfFile)
    } else if framed && byte_at(window, base, id - 3) != FRAME_BYTE {
        Ok(None)
    } else {
        let sfi_start = id - 2;
        if sfi_start + 8 > file_size {
            Ok(None)
        } else {
            let sf_len = byte_at(window, base, sfi_start) * 256 + byte_at(window, base, sfi_start + 1);
            let record_end = sfi_start + sf_len;
            let flags = byte_at(window, base, sfi_start + 5);
            let ext = flags & FLAG_EXTENSION != 0;
            let data_start = if ext {
                let len_byte = byte_at(window, base, sfi_start + 8);
                sfi_start + 8 + (if len_byte == 0 {
                    1
                } else {
                    len_byte as int
                })
            } else {
                sfi_start + 8
            };
            if sf_len < 8 {
                Ok(None)
            } else if record_end > file_size {
                Ok(None)
            } else if framed && record_end < file_size && byte_at(window, base, record_end)
                != FRAME_BYTE {
                // a genuine record is followed by the next record's framing
                // byte, or by the end of the file
                Ok(None)
            } else if ext && sfi_start + 8 >= record_end {
                Ok(None)
            } else if data_start > record_end {
                Ok(None)
            } else {
                let data = bytes_at(window, base, data_start, record_end);
                Ok(
                    Some(
                        (
                            bytes_at(window, base, id, id + 3),
                            if flags & FLAG_PADDING != 0 {
                                padding_stripped(data)
                            } else {
                                data
                            },
                        ),
                    ),
                )
            }
        }
    }
}

/// A well-formed record is read whole. Its SFLength is the two bytes before
/// the type id, big-endian: when that length L is at least 8 and fits in the
/// file, the record is framed as the file is (an X'5A' before it, and after
/// it an X'5A' or the end of the file), and its flags ask for no SFI
/// extension and no padding, the record is its type id and all of its data:
/// the bytes from the end of the introducer to L bytes after its start.
pub proof fn lemma_well_formed_record_is_read(
    window: Seq<u8>,
    base: int,
    file_size: int,
    id: int,
    framed: bool,
)
    requires
        id >= 3,
        framed ==> id - 3 < file_size && byte_at(window, base, id - 3) == FRAME_BYTE,
        8 <= 256 * byte_at(window, base, id - 2) + byte_at(window, base, id - 1),
        id - 2 + 256 * byte_at(window, base, id - 2) + byte_at(window, base, id - 1) <= file_size,
        framed ==> ({
            let end = id - 2 + 256 * byte_at(window, base, id - 2) + byte_at(window, base, id - 1);
            end == file_size || byte_at(window, base, end) == FRAME_BYTE
        }),
        byte_at(window, base, id + 3) & FLAG_EXTENSION == 0,
        byte_at(window, base, id + 3) & FLAG_PADDING == 0,
    ensures
        record_at(window, base, file_size, id, framed) == Ok::<_, RecordError>(
            Some(
                (
                    bytes_at(window, base, id, id + 3),
                    bytes_at(
                        window,
                        base,
                        id + 6,
                        id - 2 + 256 * byte_at(window, base, id - 2) + byte_at(window, base, id - 1),
                    ),
                ),
            ),
        ),
{
}

/// Whatever record is read, its SFLength, the two bytes before the type id
/// read big-endian, is at least 8 and ends the record inside the file, where
/// a framed file has an X'5A' or its end; the type id is the three bytes at
/// the hit; and the data is no longer than the record after its introducer.
pub proof fn lemma_read_record_fits_its_length(
    window: Seq<u8>,
    base: int,
    file_size: int,
    id: int,
    framed: bool,
)
    requires
        window_covers(window, base, file_size, id),
        record_at(window, base, file_size, id, framed) is Ok,
        record_at(window, base, file_size, id, framed)->Ok_0 is Some,
    ensures
        ({
            let (type_id, data) = record_at(window, base, file_size, id, framed)->Ok_0->Some_0;
            let len = 256 * byte_at(window, base, id - 2) + byte_at(window, base, id - 1);
            &&& id >= 2
            &&& 8 <= len
            &&& id - 2 + len <= file_size
            &&& framed ==> id >= 3 && byte_at(window, base, id - 3) == FRAME_BYTE
            &&& framed ==> (id - 2 + len == file_size || byte_at(window, base, id - 2 + len)
                == FRAME_BYTE)
            &&& type_id == bytes_at(window, base, id, id + 3)
            &&& data.len() <= len - 8
        }),
{
    let sfi = id - 2;
    let len = 256 * byte_at(window, base, sfi) + byte_at(window, base, sfi + 1);
    let flags = byte_at(window, base, sfi + 5);
    let ext = flags & FLAG_EXTENSION != 0;
    let data_start = if ext {
        let len_byte = byte_at(window, base, sfi + 8);
        sfi + 8 + (if len_byte == 0 {
            1
        } else {
            len_byte as int
        })
    } else {
        sfi + 8
    };
    let raw = bytes_at(window, base, data_start, sfi + len);
    assert(raw.len() == sfi + len - data_start);
    lemma_padding_leaves_a_prefix(raw);
}

/// The record a dump hit at `id_offset` stands for, read from `window`, the
/// bytes of the file from offset `base` on. `Ok(None)` where the hit is not
/// a structured field boundary.
pub fn read_record(window: &[u8], base: u64, file_size: u64, id_offset: u64, framed: bool) -> (r: Result<
    Option<SfRecord>,
    RecordError,
>)
    requires
        window_covers(window@, base as int, file_size as int, id_offset as int),
        id_offset + 0x10000 <= u64::MAX,
    ensures
        r matches Ok(Some(rec)) ==> record_at(
            window@,
            base as int,
            file_size as int,
            id_offset as int,
            framed,
        ) == Ok::<_, RecordError>(Some((rec.type_id@, rec.data@))),
        r matches Ok(None) ==> record_at(window@, base as int, file_size as int, id_offset as int, framed)
            == Ok::<Option<(Seq<u8>, Seq<u8>)>, RecordError>(None),
        r matches Err(e) ==> record_at(window@, base as int, file_size as int, id_offset as int, framed)
            == Err::<Option<(Seq<u8>, Seq<u8>)>, RecordError>(e),
{
    if id_offset < 2 {
        return Ok(None);
    }
    let sfi_start = id_offset - 2;
    if framed {
        if sfi_start < 1 {
            return Ok(None);
        }
        let record_start = sfi_start - 1;
        if record_start >= file_size {
            return Err(RecordError::PastEndOfFile);
        }
        if window[(record_start - base) as usize] != FRAME_BYTE {
            return Ok(None);
        }
    }
    if sfi_start + SFI_LEN > file_size {
        return Ok(None);
    }
    let at = (sfi_start - base) as usize;
    let sf_len = (window[at] as u64) * 256 + window[at + 1] as u64;
    let flags = window[at + 5];
    let type_id = [window[at + 2], window[at + 3], window[at + 4]];
    if sf_len < MIN_SF_LEN {
        return Ok(None);
    }
    let record_end = sfi_start + sf_len;
    if record_end > file_size {
        return Ok(None);
    }
    if framed && record_end < file_size {
        if window[(record_end - base) as usize] != FRAME_BYTE {
            return Ok(None);
        }
    }
    let mut data_start = sfi_start + SFI_LEN;
    // the optional SFI extension sits between the introducer and the data,
    // and its first byte is its own length
    if flags & FLAG_EXTENSION != 0 {
        if data_start >= record_end {
            return Ok(None);
        }
        let ext = window[(data_start - base) as usize];
        data_start = data_start + if ext == 0 {
            1
        } else {
            ext as u64
        };
    }
    if data_start > record_end {
        return Ok(None);
    }
    let mut data = slice_to_vec(
        slice_subrange(window, (data_start - base) as usize, (record_end - base) as usize),
    );
    if flags & FLAG_PADDING != 0 {
        strip_padding(&mut data);
    }
    proof {
        assert(type_id@ == bytes_at(window@, base as int, id_offset as int, id_offset + 3));
    }
    Ok(Some(SfRecord { type_id, data }))
}

} // verus!
