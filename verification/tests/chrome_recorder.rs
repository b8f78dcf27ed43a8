//! The span recorder: session documents, thread-id scoping, multi-frame
//! capture, and the document's JSON form.

use remote_devtools::chrome::combine_documents;
use remote_devtools::chrome::CaptureError;
use remote_devtools::chrome::ChromeLayer;
use remote_devtools::chrome::ChromeLayerController;
use remote_devtools::chrome::EventMeta;
use remote_devtools::events::StoredRecord;

fn meta(name: &str, target: &str, file: Option<&str>, line: Option<u32>) -> EventMeta {
    EventMeta {
        name: String::from(name),
        target: String::from(target),
        file: file.map(String::from),
        line,
    }
}

fn parse(doc: &str) -> serde_json::Value {
    serde_json::from_str(doc).expect("document must be valid JSON")
}

#[test]
fn empty_session_yields_empty_array() {
    let mut layer = ChromeLayer::new();
    ChromeLayerController::start(&mut layer);
    let doc = ChromeLayerController::stop(&mut layer, false).unwrap();
    assert_eq!(doc, "[]");
    let value = parse(&doc);
    assert_eq!(value.as_array().unwrap().len(), 0);
}

#[test]
fn stop_without_start_is_rejected() {
    let mut layer = ChromeLayer::new();
    let result = ChromeLayerController::stop(&mut layer, false);
    assert_eq!(result, Err(CaptureError::StopWithoutStart));
}

#[test]
fn session_document_parses_and_carries_the_entries() {
    let mut layer = ChromeLayer::new();
    ChromeLayerController::start(&mut layer);
    let mut args = StoredRecord::new();
    args.record_str(String::from("frame_number"), String::from("17"));
    layer.on_enter(
        100,
        &meta("frame", "app::loop", Some("src/app.rs"), Some(10)),
        args,
        7,
        Some(String::from("main")),
    );
    layer.on_event(150, &meta("tick", "app::loop", None, None), StoredRecord::new(), 7, None);
    layer.on_exit(
        200,
        &meta("frame", "app::loop", Some("src/app.rs"), Some(10)),
        StoredRecord::new(),
        7,
        None,
    );
    let doc = ChromeLayerController::stop(&mut layer, false).unwrap();

    let value = parse(&doc);
    let entries = value.as_array().unwrap();
    assert_eq!(entries.len(), 4);

    // The thread row is labeled before the thread's first entry.
    assert_eq!(entries[0]["ph"], "M");
    assert_eq!(entries[0]["pid"], 1);
    assert_eq!(entries[0]["name"], "thread_name");
    assert_eq!(entries[0]["args"]["name"], "main");
    let tid = entries[0]["tid"].as_u64().unwrap();

    assert_eq!(entries[1]["ph"], "B");
    assert_eq!(entries[1]["ts"].as_u64(), Some(100));
    assert_eq!(entries[1]["name"], "frame");
    assert_eq!(entries[1]["cat"], "app::loop");
    assert_eq!(entries[1]["tid"].as_u64(), Some(tid));
    assert_eq!(entries[1]["args"]["[file]"], "src/app.rs");
    assert_eq!(entries[1]["args"]["[line]"].as_u64(), Some(10));
    assert_eq!(entries[1]["args"]["frame_number"], "17");

    assert_eq!(entries[2]["ph"], "i");
    assert_eq!(entries[2]["ts"].as_u64(), Some(150));
    assert_eq!(entries[2]["s"], "p");

    assert_eq!(entries[3]["ph"], "E");
    assert_eq!(entries[3]["ts"].as_u64(), Some(200));

    // Timestamps are monotonically non-decreasing within the one thread id.
    let mut last_ts = 0u64;
    for entry in entries {
        if entry["ph"] != "M" {
            let ts = entry["ts"].as_u64().unwrap();
            assert!(ts >= last_ts);
            last_ts = ts;
        }
    }
}

#[test]
fn thread_ids_are_born_again_each_session() {
    let mut layer = ChromeLayer::new();

    ChromeLayerController::start(&mut layer);
    layer.on_event(10, &meta("tick", "app", None, None), StoredRecord::new(), 7, None);
    let first = ChromeLayerController::stop(&mut layer, false).unwrap();
    let first = parse(&first);
    let first_entries = first.as_array().unwrap();
    assert_eq!(first_entries.len(), 2);
    let first_tid = first_entries[0]["tid"].as_u64().unwrap();

    ChromeLayerController::start(&mut layer);
    layer.on_event(20, &meta("tick", "app", None, None), StoredRecord::new(), 7, None);
    layer.on_event(21, &meta("tick", "app", None, None), StoredRecord::new(), 7, None);
    let second = ChromeLayerController::stop(&mut layer, false).unwrap();
    let second = parse(&second);
    let second_entries = second.as_array().unwrap();
    assert_eq!(second_entries.len(), 3);
    let second_tid = second_entries[0]["tid"].as_u64().unwrap();

    // The same thread got a fresh id in the new session, and no entry of the
    // new document refers to the old id.
    assert_ne!(first_tid, second_tid);
    for entry in second_entries {
        assert_eq!(entry["tid"].as_u64(), Some(second_tid));
    }

    // Each new id is labeled exactly once within its session's document.
    let labels = second_entries
        .iter()
        .filter(|e| e["ph"] == "M" && e["tid"].as_u64() == Some(second_tid))
        .count();
    assert_eq!(labels, 1);

    // An unnamed thread's row is labeled with its id in decimal.
    assert_eq!(second_entries[0]["args"]["name"], second_tid.to_string());
}

#[test]
fn multi_frame_capture_combines_three_windows() {
    let mut layer = ChromeLayer::new();
    let mut docs: Vec<String> = Vec::new();

    ChromeLayerController::start(&mut layer);
    layer.on_event(10, &meta("tick", "app", None, None), StoredRecord::new(), 1, None);
    layer.on_event(11, &meta("tick", "app", None, None), StoredRecord::new(), 1, None);
    docs.push(ChromeLayerController::stop(&mut layer, true).unwrap());

    layer.on_event(20, &meta("tick", "app", None, None), StoredRecord::new(), 1, None);
    layer.on_event(21, &meta("tick", "app", None, None), StoredRecord::new(), 1, None);
    docs.push(ChromeLayerController::stop(&mut layer, true).unwrap());

    layer.on_event(30, &meta("tick", "app", None, None), StoredRecord::new(), 1, None);
    layer.on_event(31, &meta("tick", "app", None, None), StoredRecord::new(), 1, None);
    docs.push(ChromeLayerController::stop(&mut layer, false).unwrap());
    assert!(!layer.is_recording());

    let combined = combine_documents(&docs);
    let value = parse(&combined);
    let entries = value.as_array().unwrap();

    // One flat array of entry objects: each window contributed its thread
    // label and two events, with no nested per-window arrays.
    assert_eq!(entries.len(), 9);
    assert!(entries.iter().all(|e| e.is_object()));

    // The windows stay recoverable inside the flat array: each session
    // re-mints and re-labels its thread id, so a label opens each window.
    let boundaries: Vec<usize> = entries
        .iter()
        .enumerate()
        .filter(|(_, e)| e["ph"] == "M")
        .map(|(i, _)| i)
        .collect();
    assert_eq!(boundaries, vec![0, 3, 6]);

    // Three non-overlapping, contiguous time ranges, in order.
    let mut previous_end = 0u64;
    for w in 0..boundaries.len() {
        let upto = *boundaries.get(w + 1).unwrap_or(&entries.len());
        let times: Vec<u64> = entries[boundaries[w]..upto]
            .iter()
            .filter(|e| e["ph"] != "M")
            .map(|e| e["ts"].as_u64().unwrap())
            .collect();
        assert!(!times.is_empty());
        let start = *times.iter().min().unwrap();
        let end = *times.iter().max().unwrap();
        assert!(start > previous_end);
        assert!(start <= end);
        previous_end = end;
    }
}

#[test]
fn empty_windows_vanish_from_the_combined_document() {
    let mut layer = ChromeLayer::new();
    let mut docs: Vec<String> = Vec::new();

    // The first window records nothing.
    ChromeLayerController::start(&mut layer);
    docs.push(ChromeLayerController::stop(&mut layer, true).unwrap());

    layer.on_event(10, &meta("tick", "app", None, None), StoredRecord::new(), 1, None);
    docs.push(ChromeLayerController::stop(&mut layer, false).unwrap());

    assert_eq!(docs[0], "[]");
    let combined = combine_documents(&docs);
    let value = parse(&combined);
    let entries = value.as_array().unwrap();
    // The label and the event of the second window, nothing of the first,
    // and no empty slot where it would have been.
    assert_eq!(entries.len(), 2);
    assert_eq!(entries[0]["ph"], "M");
    assert_eq!(entries[1]["ph"], "i");
    assert_eq!(entries[1]["ts"].as_u64(), Some(10));
}

#[test]
fn combining_no_documents_yields_the_empty_array() {
    assert_eq!(combine_documents(&Vec::new()), "[]");
    assert_eq!(combine_documents(&vec![String::from("[]"), String::from("[]")]), "[]");
}

#[test]
fn chained_stop_keeps_recording() {
    let mut layer = ChromeLayer::new();
    ChromeLayerController::start(&mut layer);
    let session_one = layer.current_session();
    let doc = ChromeLayerController::stop(&mut layer, true).unwrap();
    assert_eq!(doc, "[]");
    assert!(layer.is_recording());
    assert_eq!(layer.current_session(), session_one + 1);
}

#[test]
fn names_with_reserved_characters_survive_the_round_trip() {
    let mut layer = ChromeLayer::new();
    ChromeLayerController::start(&mut layer);
    let tricky = "say \"hi\"\\path\nnext\tcol";
    layer.on_event(5, &meta(tricky, "app", None, None), StoredRecord::new(), 1, None);
    let doc = ChromeLayerController::stop(&mut layer, false).unwrap();
    let value = parse(&doc);
    let entries = value.as_array().unwrap();
    assert_eq!(entries[1]["name"].as_str(), Some(tricky));
}

#[test]
fn nothing_is_recorded_while_idle() {
    let mut layer = ChromeLayer::new();
    // Observed while idle: thread bookkeeping only, no entries.
    layer.on_event(1, &meta("tick", "app", None, None), StoredRecord::new(), 1, None);
    ChromeLayerController::start(&mut layer);
    let doc = ChromeLayerController::stop(&mut layer, false).unwrap();
    assert_eq!(doc, "[]");
}
