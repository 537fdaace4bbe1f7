//! Marshalling for the sandboxed-bytecode plugin transport.
//!
//! The host hands a serialized book to an untrusted virtual-machine guest
//! through the guest's linear memory and reads a result back from a region
//! the guest chooses.  Every offset and length involved is
//! attacker-influenced, so each one is checked against the memory size
//! before a single byte is read; the checks live here, over plain byte
//! snapshots of the guest memory, and are verified.  Instantiating the
//! virtual machine and calling the guest's entry point is the embedding
//! driver's part.

use vstd::prelude::*;

use crate::book::{Book, ItemView};
use crate::codec::{decode_book_binary, encode_book_binary, spec_decode_binary, binary_wire,
    items_bounded};

verus! {

/// Offset of the first payload byte in the guest's linear memory.  The bytes
/// below it are reserved for the host/guest length channel and are never
/// used for payload in either direction.
pub const PAYLOAD_OFFSET: usize = 5;

/// Offset of the reserved four-byte channel in which the guest writes the
/// length of its result, little-endian.
pub const RESULT_LEN_OFFSET: usize = 1;

/// Why a sandbox invocation failed.
#[derive(Debug, PartialEq)]
pub enum SandboxError {
    /// The guest memory is too small to hold the payload at the protocol
    /// offset.
    Capacity { payload_len: u64, memory_size: u64 },
    /// The guest reported a result region that exceeds its own memory.
    Bounds { start: i64, len: u64, memory_size: u64 },
    /// The guest's result bytes are not a well-formed tree document.
    Decode,
}

/// The result length read from the reserved channel.
pub open spec fn spec_result_len(mem: Seq<u8>) -> u32 {
    vstd::bytes::spec_u32_from_le_bytes(
        mem.subrange(RESULT_LEN_OFFSET as int, RESULT_LEN_OFFSET + 4),
    )
}

/// What extracting a result from a guest memory snapshot yields, for every
/// snapshot and every reported start offset: a bounds error whenever the
/// reserved channel or the reported region exceeds the memory, a decode
/// error when the region is not one well-formed tree document, and the
/// decoded tree otherwise.
pub open spec fn spec_extract(mem: Seq<u8>, ptr: int) -> Result<Seq<ItemView>, SandboxError> {
    if mem.len() < RESULT_LEN_OFFSET + 4 {
        Result::Err(
            SandboxError::Bounds {
                start: RESULT_LEN_OFFSET as i64,
                len: 4,
                memory_size: mem.len() as u64,
            },
        )
    } else {
        let n = spec_result_len(mem) as int;
        if ptr < 0 || ptr + n > mem.len() {
            Result::Err(
                SandboxError::Bounds {
                    start: ptr as i64,
                    len: spec_result_len(mem) as u64,
                    memory_size: mem.len() as u64,
                },
            )
        } else {
            match spec_decode_binary(mem.subrange(ptr, ptr + n)) {
                Option::None => Result::Err(SandboxError::Decode),
                Option::Some(b) => Result::Ok(b),
            }
        }
    }
}

/// Bounds-checked read of a byte region from a guest memory snapshot: the
/// bytes come back exactly when the whole region lies inside the memory;
/// nothing outside the snapshot is ever touched.
pub fn read_region(mem: &Vec<u8>, start: usize, len: usize) -> (r: Option<Vec<u8>>)
    ensures
        r is Some <==> start + len <= mem@.len(),
        r matches Option::Some(v) ==> v@ == mem@.subrange(start as int, start + len),
{
    if len <= mem.len() && start <= mem.len() - len {
        let sl = vstd::slice::slice_subrange(mem.as_slice(), start, start + len);
        Option::Some(vstd::slice::slice_to_vec(sl))
    } else {
        Option::None
    }
}

/// Read the result length that the guest wrote into the reserved channel.
pub fn read_result_len(mem: &Vec<u8>) -> (r: Option<u32>)
    ensures
        r is Some <==> RESULT_LEN_OFFSET + 4 <= mem@.len(),
        r matches Option::Some(n) ==> n == spec_result_len(mem@),
{
    match read_region(mem, RESULT_LEN_OFFSET, 4) {
        Option::None => Option::None,
        Option::Some(v) => Option::Some(vstd::bytes::u32_from_le_bytes(v.as_slice())),
    }
}

/// Whether the guest memory can hold a payload of the given length at the
/// protocol offset.  The driver must not write a single payload byte
/// otherwise.
pub fn check_capacity(memory_size: usize, payload_len: usize) -> (ok: bool)
    ensures
        ok <==> PAYLOAD_OFFSET + payload_len <= memory_size,
{
    memory_size >= PAYLOAD_OFFSET && memory_size - PAYLOAD_OFFSET >= payload_len
}

/// Serialize a book into the payload the guest will decode.
pub fn prepare_payload(book: &Book) -> (out: Vec<u8>)
    ensures
        out@ == binary_wire(book@),
        items_bounded(book@),
{
    encode_book_binary(book)
}

/// Extract the guest's result from a snapshot of its linear memory.  `ptr`
/// is the start offset the guest's entry point returned; the result length
/// is read from the reserved channel.  A region that exceeds the memory is
/// rejected with a bounds error before any payload byte is read.
pub fn extract_value(mem: &Vec<u8>, ptr: i32) -> (r: Result<Book, SandboxError>)
    ensures
        match r {
            Result::Ok(b) => spec_extract(mem@, ptr as int) == Result::<
                Seq<ItemView>,
                SandboxError,
            >::Ok(b@),
            Result::Err(e) => spec_extract(mem@, ptr as int) == Result::<
                Seq<ItemView>,
                SandboxError,
            >::Err(e),
        },
        mem@.len() >= RESULT_LEN_OFFSET + 4 && ptr >= 0 && ptr + spec_result_len(mem@) > mem@.len()
            ==> r == Result::<Book, SandboxError>::Err(
            SandboxError::Bounds {
                start: ptr as i64,
                len: spec_result_len(mem@) as u64,
                memory_size: mem@.len() as u64,
            },
        ),
{
    let msize = mem.len();
    if msize < RESULT_LEN_OFFSET + 4 {
        return Result::Err(
            SandboxError::Bounds { start: RESULT_LEN_OFFSET as i64, len: 4, memory_size: msize as u64 },
        );
    }
    let n = match read_result_len(mem) {
        Option::Some(n) => n,
        Option::None => {
            return Result::Err(
                SandboxError::Bounds {
                    start: RESULT_LEN_OFFSET as i64,
                    len: 4,
                    memory_size: msize as u64,
                },
            );
        },
    };
    if ptr < 0 {
        return Result::Err(
            SandboxError::Bounds { start: ptr as i64, len: n as u64, memory_size: msize as u64 },
        );
    }
    let start = ptr as usize;
    let nu = n as usize;
    match read_region(mem, start, nu) {
        Option::None => Result::Err(
            SandboxError::Bounds { start: ptr as i64, len: n as u64, memory_size: msize as u64 },
        ),
        Option::Some(buf) => match decode_book_binary(&buf) {
            Option::None => Result::Err(SandboxError::Decode),
            Option::Some(b) => Result::Ok(b),
        },
    }
}

/// The sandbox preprocessor.  It owns the wire protocol of the sandboxed
/// transport: building the payload, the capacity check, and the
/// bounds-checked extraction of the guest's result.  The embedding driver
/// discovers guest modules, instantiates the virtual machine, writes the
/// payload at [`PAYLOAD_OFFSET`], calls the guest's entry point and hands a
/// snapshot of the guest memory back to [`extract_value`].
pub struct WasmPreprocessor;

impl WasmPreprocessor {
    /// The preprocessor's name.
    pub fn name(&self) -> (n: &str)
        ensures
            n@ == "Wasm Preprocessor"@,
    {
        "Wasm Preprocessor"
    }

    /// The sandbox transport only applies to the hypertext renderer.
    pub fn supports_renderer(&self, renderer: &str) -> (b: bool)
        ensures
            b == (renderer@ == "html"@),
    {
        crate::pipeline::str_eq(renderer, "html")
    }
}

} // verus!
