use mdbook::book::{Book, BookItem, Chapter};
use mdbook::codec::{decode_book_binary, encode_book_binary};
use mdbook::sandbox::{check_capacity, extract_value, prepare_payload, read_region,
    read_result_len, SandboxError, WasmPreprocessor, PAYLOAD_OFFSET, RESULT_LEN_OFFSET};
use mdbook::uppercase::{preprocess, updated_item};
use wasmer::sys::NativeEngineExt;

fn two_chapter_book() -> Book {
    Book::with_chapters(vec![
        BookItem::Chapter(Chapter::new("Intro", String::from("hi"), "intro.md", Vec::new())),
        BookItem::Chapter(Chapter::new("Guide", String::from("bye"), "guide.md", Vec::new())),
    ])
}

/// Place `result` at `ptr` in `mem` and write its length into the reserved
/// channel, as a well-behaved guest would.
fn write_result(mem: &mut Vec<u8>, ptr: usize, result: &[u8]) {
    mem[ptr..ptr + result.len()].copy_from_slice(result);
    let len_bytes = (result.len() as u32).to_le_bytes();
    mem[RESULT_LEN_OFFSET..RESULT_LEN_OFFSET + 4].copy_from_slice(&len_bytes);
}

#[test]
fn sandbox_bounds_error_on_oversized_result() {
    let mut mem: Vec<u8> = vec![0u8; 64];
    // the guest claims a 1000-byte result at offset 10
    mem[RESULT_LEN_OFFSET] = 0xE8;
    mem[RESULT_LEN_OFFSET + 1] = 0x03;
    let r = extract_value(&mem, 10);
    assert!(matches!(r, Err(SandboxError::Bounds { .. })));
}

#[test]
fn sandbox_bounds_error_on_offset_past_memory() {
    let mut mem: Vec<u8> = vec![0u8; 64];
    write_result(&mut mem, 8, &[1, 2, 3, 4]);
    let r = extract_value(&mem, 1000);
    assert!(matches!(r, Err(SandboxError::Bounds { .. })));
}

#[test]
fn sandbox_bounds_error_on_negative_offset() {
    let mem: Vec<u8> = vec![0u8; 64];
    let r = extract_value(&mem, -1);
    assert!(matches!(r, Err(SandboxError::Bounds { .. })));
}

#[test]
fn sandbox_bounds_error_on_memory_without_length_channel() {
    let mem: Vec<u8> = vec![0u8; 3];
    let r = extract_value(&mem, 0);
    assert!(matches!(r, Err(SandboxError::Bounds { .. })));
}

#[test]
fn sandbox_decode_error_on_garbage_result() {
    let mut mem: Vec<u8> = vec![0u8; 64];
    write_result(&mut mem, 16, &[9, 9, 9, 9, 9, 9, 9, 9]);
    let r = extract_value(&mem, 16);
    assert!(matches!(r, Err(SandboxError::Decode)));
}

#[test]
fn capacity_check_requires_room_for_payload_and_header() {
    assert!(!check_capacity(0, 0));
    assert!(!check_capacity(PAYLOAD_OFFSET - 1, 0));
    assert!(check_capacity(PAYLOAD_OFFSET, 0));
    assert!(check_capacity(100, 95));
    assert!(!check_capacity(100, 96));
}

#[test]
fn read_region_is_bounds_checked() {
    let mem: Vec<u8> = vec![10, 20, 30, 40, 50];
    assert_eq!(read_region(&mem, 1, 3).unwrap(), vec![20, 30, 40]);
    assert_eq!(read_region(&mem, 0, 5).unwrap(), mem);
    assert!(read_region(&mem, 3, 3).is_none());
    assert!(read_region(&mem, 6, 0).is_none());
}

#[test]
fn result_length_channel_is_little_endian() {
    let mut mem: Vec<u8> = vec![0u8; 16];
    mem[RESULT_LEN_OFFSET] = 0x01;
    mem[RESULT_LEN_OFFSET + 1] = 0x02;
    assert_eq!(read_result_len(&mem).unwrap(), 0x0201);
    let tiny: Vec<u8> = vec![0u8; 4];
    assert!(read_result_len(&tiny).is_none());
}

#[test]
fn sandbox_round_trip_with_echo_guest() {
    // a guest that hands the payload back unchanged must yield the tree back
    let book = two_chapter_book();
    let payload = prepare_payload(&book);
    let mut mem: Vec<u8> = vec![0u8; PAYLOAD_OFFSET + payload.len() + 64];
    mem[PAYLOAD_OFFSET..PAYLOAD_OFFSET + payload.len()].copy_from_slice(&payload);
    let result = payload.clone();
    write_result(&mut mem, PAYLOAD_OFFSET, &result);
    let got = extract_value(&mem, PAYLOAD_OFFSET as i32).unwrap();
    assert_eq!(got, book);
}

#[test]
fn sandbox_uppercase_guest_uppercases_contents_only() {
    // the example guest decodes the payload, uppercases chapter contents,
    // re-encodes, and reports where its result lies
    let book = two_chapter_book();
    let payload = prepare_payload(&book);
    let mut mem: Vec<u8> = vec![0u8; PAYLOAD_OFFSET + 2 * payload.len() + 64];
    mem[PAYLOAD_OFFSET..PAYLOAD_OFFSET + payload.len()].copy_from_slice(&payload);

    // what the guest does, simulated on this side of the memory
    let region = mem[PAYLOAD_OFFSET..PAYLOAD_OFFSET + payload.len()].to_vec();
    let guest_book = decode_book_binary(&region).unwrap();
    let transformed = preprocess(guest_book);
    let result = encode_book_binary(&transformed);
    let ptr = PAYLOAD_OFFSET + payload.len();
    write_result(&mut mem, ptr, &result);

    let got = extract_value(&mem, ptr as i32).unwrap();
    let names: Vec<&str> = got
        .sections
        .iter()
        .map(|i| match i {
            BookItem::Chapter(ch) => ch.name.as_str(),
            BookItem::Separator => "---",
        })
        .collect();
    assert_eq!(names, vec!["Intro", "Guide"]);
    match &got.sections[0] {
        BookItem::Chapter(ch) => {
            assert_eq!(ch.content, "HI");
            assert_eq!(ch.path, "intro.md");
        }
        _ => panic!("expected a chapter"),
    }
    match &got.sections[1] {
        BookItem::Chapter(ch) => {
            assert_eq!(ch.content, "BYE");
            assert!(ch.sub_items.is_empty());
        }
        _ => panic!("expected a chapter"),
    }
}

#[test]
fn test_preprocess() {
    let book = Book::with_chapters(vec![
        Chapter::new("Chapter One", format!("{}\n", "asdf".repeat(10)).repeat(100), "", vec![])
            .into(),
        Chapter::new("Chapter Two", format!("{}\n", "asdf".repeat(10)).repeat(100), "", vec![])
            .into(),
        Chapter::new("Chapter Three", format!("{}\n", "asdf".repeat(10)).repeat(100), "", vec![])
            .into(),
        Chapter::new("Chapter Four", format!("{}\n", "asdf".repeat(10)).repeat(100), "", vec![])
            .into(),
        Chapter::new("Chapter Five", format!("{}\n", "asdf".repeat(10)).repeat(100), "", vec![])
            .into(),
        Chapter::new("Chapter Six", format!("{}\n", "asdf".repeat(10)).repeat(100), "", vec![])
            .into(),
    ]);
    let updated = preprocess(book);
    let mut lowercase_chapters: usize = 0;
    let mut it = updated.iter();
    while let Some(item) = it.next() {
        if let BookItem::Chapter(ch) = item {
            if ch.content.chars().filter(|c| c.is_lowercase()).count() > 0 {
                lowercase_chapters += 1;
            }
        }
    }
    assert!(lowercase_chapters < 1);
    println!("{:?}", updated);
}

/// A minimal guest module, assembled by hand: it exports a two-page memory
/// and an entry point `_preprocess(start, len)` that writes `len` into the
/// reserved length channel at offset 1 and returns `start` — an echo guest.
fn echo_guest_module() -> Vec<u8> {
    let mut wasm: Vec<u8> = Vec::new();
    // magic and version
    wasm.extend([0x00, 0x61, 0x73, 0x6d, 0x01, 0x00, 0x00, 0x00]);
    // type section: one function type (i32, i32) -> i32
    wasm.extend([0x01, 0x07, 0x01, 0x60, 0x02, 0x7f, 0x7f, 0x01, 0x7f]);
    // function section: one function of type 0
    wasm.extend([0x03, 0x02, 0x01, 0x00]);
    // memory section: one memory of at least two pages
    wasm.extend([0x05, 0x03, 0x01, 0x00, 0x02]);
    // export section: "memory" and "_preprocess"
    wasm.extend([0x07, 0x18, 0x02]);
    wasm.extend([0x06]);
    wasm.extend(b"memory");
    wasm.extend([0x02, 0x00]);
    wasm.extend([0x0b]);
    wasm.extend(b"_preprocess");
    wasm.extend([0x00, 0x00]);
    // code section: i32.const 1; local.get 1; i32.store; local.get 0; end
    wasm.extend([
        0x0a, 0x0d, 0x01, 0x0b, 0x00, 0x41, 0x01, 0x20, 0x01, 0x36, 0x00, 0x00, 0x20, 0x00,
        0x0b,
    ]);
    wasm
}

/// A store whose memories are dynamic, reserving only what the guest
/// actually uses.
fn small_memory_store() -> wasmer::Store {
    let mut engine = wasmer::Engine::default();
    engine.set_tunables(wasmer::sys::BaseTunables {
        static_memory_bound: wasmer::Pages(0),
        static_memory_offset_guard_size: 0x1_0000,
        dynamic_memory_offset_guard_size: 0x1_0000,
    });
    wasmer::Store::new(engine)
}

#[test]
fn wasm_echo_guest_round_trips_through_real_memory() {
    let wasm = echo_guest_module();
    let mut store = small_memory_store();
    let module = wasmer::Module::new(&store, &wasm).expect("the echo module must load");
    let imports = wasmer::Imports::new();
    let instance =
        wasmer::Instance::new(&mut store, &module, &imports).expect("instantiation must work");
    let memory = instance.exports.get_memory("memory").expect("memory export").clone();

    let book = two_chapter_book();
    let payload = prepare_payload(&book);
    let size = memory.view(&store).data_size() as usize;
    assert!(check_capacity(size, payload.len()));
    memory
        .view(&store)
        .write(PAYLOAD_OFFSET as u64, &payload)
        .expect("payload must fit");

    let entry: wasmer::TypedFunction<(i32, i32), i32> = instance
        .exports
        .get_typed_function(&store, "_preprocess")
        .expect("entry point");
    let ptr = entry
        .call(&mut store, PAYLOAD_OFFSET as i32, payload.len() as i32)
        .expect("the guest must not trap");

    let view = memory.view(&store);
    let mut snapshot: Vec<u8> = vec![0u8; view.data_size() as usize];
    view.read(0, &mut snapshot).expect("snapshot");

    let got = extract_value(&snapshot, ptr).expect("the echoed tree must decode");
    assert_eq!(got, book);
}

#[test]
fn updated_item_keeps_separators() {
    let it = updated_item(BookItem::Separator);
    assert!(matches!(it, BookItem::Separator));
}

#[test]
fn wasm_preprocessor_supports_html_only() {
    let p = WasmPreprocessor;
    assert_eq!(p.name(), "Wasm Preprocessor");
    assert!(p.supports_renderer("html"));
    assert!(!p.supports_renderer("epub"));
}
