use p_memory::notes::{
    chunk_text, default_chunk_chars, domain_root, note_payload, prepare_note, records_to_replace, relative_note_path, replace_note,
    split_batch, write_chunk, NoteFileInput, TextChunk,
};
use p_memory::index::{chunk_body, note_chunk_chars};
use p_memory::records::note_id_of;
use p_memory::rendering::render;
use p_memory::storage;
use p_memory::types::RecordKind;

#[test]
fn split_note_path_separates_directories_from_the_file_name() {
    assert_eq!(
        storage::split_note_path("notes/characters/overview.md"),
        (vec!["notes".to_string(), "characters".to_string()], "overview".to_string())
    );
    // A dot in a directory is no extension: only the last part loses its suffix.
    assert_eq!(storage::split_note_path("v1.2/角色.设定.md"), (vec!["v1.2".to_string()], "角色.设定".to_string()));
    assert_eq!(storage::split_note_path("overview"), (Vec::new(), "overview".to_string()));
}

#[test]
fn note_paths_must_stay_inside_the_domain_root() {
    assert_eq!(relative_note_path("E:/data/demo", r"E:\data\demo\notes\overview.md").unwrap(), "notes/overview.md");
    // A prefix that only looks alike is no parent; nor may the path be the root itself.
    assert!(relative_note_path("E:/data/demo", "E:/data/demox/overview.md").is_err());
    assert!(relative_note_path("E:/data/demo", "E:/data/other/overview.md").is_err());
    assert!(relative_note_path("E:/data/demo", "E:/data/demo").is_err());
}

#[test]
fn long_lines_share_their_line_number() {
    let chunks = chunk_text(&"一".repeat(500), 220).unwrap();
    assert_eq!(chunks.len(), 3);
    assert!(chunks.iter().all(|chunk| chunk.offset == 1 && chunk.limit == 1));
    assert_eq!(chunks.iter().map(|chunk| chunk.content.chars().count()).collect::<Vec<_>>(), vec![220, 220, 60]);
    assert_eq!(chunks.iter().map(|chunk| chunk.ordinal).collect::<Vec<_>>(), vec![0, 1, 2]);
}

/// Chunks follow paragraphs, and a fenced block stays whole.
#[test]
fn chunks_follow_paragraphs_and_keep_their_lines() {
    let chunks = chunk_text("# 茶\n\n上海喝茶\n\n```rust\nlet x = 1;\n```\n\n最后一段", 220).unwrap();
    let tea = chunks.iter().find(|chunk| chunk.content.contains("上海喝茶")).unwrap();
    assert_eq!((tea.offset, tea.limit), (3, 1));
    let fence = chunks.iter().find(|chunk| chunk.content.contains("let x")).unwrap();
    assert_eq!((fence.offset, fence.limit), (5, 3));
    assert!(chunk_text("x", 15).is_err() && chunk_text("x", 100_001).is_err());
    assert!(chunk_text(" \n\n", 220).unwrap().is_empty());
    assert!(split_batch(&vec![("a".to_string(), 220), ("b".to_string(), 3)]).is_err());
    assert_eq!(split_batch(&vec![("a".to_string(), 220), ("b".to_string(), 16)]).unwrap().len(), 2);
}

/// A note is written under the root of its namespace, with its directories and its name as tags.
#[test]
fn notes_are_located_and_tagged() {
    let input = NoteFileInput::new("/data/demo/地点/港口.md".to_string());
    let ready = prepare_note(&input, Some("/data/demo/"), "港口", Vec::new()).unwrap();
    assert_eq!((ready.source.as_str(), ready.title.as_str()), ("地点/港口.md", "港口"));
    assert_eq!(ready.record.tags, vec!["地点".to_string(), "港口".to_string()]);
    assert_eq!(ready.chunk_chars, default_chunk_chars());
    let rootless = prepare_note(&input, None, "港口", Vec::new()).unwrap_err().message();
    assert!(rootless.contains("has no registered domain root"));
    assert!(prepare_note(&input, Some("/elsewhere"), "港口", Vec::new()).is_err());
    assert!(prepare_note(&NoteFileInput::new(" ".to_string()), Some("/data"), "", Vec::new()).is_err());
    assert_eq!(domain_root("demo", "/data/demo", true).unwrap(), "/data/demo");
    assert!(domain_root("demo", "/data/demo", false).unwrap_err().message().contains("is not an existing directory"));
    assert!(domain_root("", "/data/demo", true).is_err());
    assert_eq!(records_to_replace(Some(9), vec![10, 11]), vec![10, 11, 9]);
    assert!(records_to_replace(None, vec![10]).is_empty());
    let again = replace_note(Some(9), vec![10, 11]);
    assert_eq!((again.gone, again.id), (vec![10, 11, 9], Some(9)));
    assert_eq!(replace_note(None, Vec::new()).id, None);
}

/// What is written for a note and its chunks leads back to the note, its chunk size and the text.
#[test]
fn chunks_lead_back_to_their_note_and_text() {
    let payload = note_payload(220);
    assert_eq!(render(&payload), r#"{"chunk_chars":220}"#);
    assert_eq!(note_chunk_chars(Some(&payload)), 220);

    let chunk = TextChunk { ordinal: 1, offset: 3, limit: 2, content: "abc".to_string() };
    let written = write_chunk(7, &chunk);
    assert_eq!(render(&written.payload), r#"{"limit":2,"note_id":7,"offset":3,"ordinal":1}"#);
    assert_eq!(written.fingerprint, "ba7816bf8f01cfea414140de5dae2223b00361a396177a9cb410ff61f20015ad");
    assert_eq!(note_id_of(RecordKind::Chunk, &written.payload), 7);
    assert_eq!(chunk_body(&vec!["first".to_string(), "abc".to_string()], &written.payload), "abc");
}

/// Chunks stand on the lines that they name, in order, and hold all that can be seen.
#[test]
fn chunks_hold_all_of_a_text() {
    let long = "很长的一行文字，".repeat(12);
    let text = format!("# Head\r\n\n{long}\nnext line\n\n```\ncode\n\nmore\n```\n| a | b |\n|---|---|\n| 1 | 2 |\n   \nend");
    let lines: Vec<&str> = text.lines().collect();
    let visible = |s: &str| s.chars().filter(|ch| !ch.is_whitespace()).collect::<String>();
    for target in [16, 17, 40, 220] {
        let chunks = chunk_text(&text, target).unwrap();
        let mut last = 1;
        for chunk in &chunks {
            assert!(chunk.offset >= last);
            last = chunk.offset + chunk.limit - 1;
            assert!(chunk.limit >= 1 && last <= lines.len());
            assert!(lines[chunk.offset - 1..last].join("\n").contains(&chunk.content));
        }
        let all: String = chunks.iter().map(|chunk| visible(&chunk.content)).collect();
        assert_eq!(all, visible(&text));
    }
}
