use zolit::llm_fallback::{
    build_llm_placement_prompt, decode_error_message, llm_batches, llm_reply_placements, llm_request_body,
    merge_batch, parse_llm_placement_response, placements_from_entries, reply_placements, LLM_PLACEMENT_SYSTEM_PROMPT,
};
use zolit::zotero::types::ZoteroAnnotation;


#[test]
fn test_build_llm_placement_prompt_basic() {
    let ann = ZoteroAnnotation {
        item_id: 1,
        ann_type: 1,
        text: Some("test text".to_string()),
        comment: None,
        color: None,
        page_label: Some("5".to_string()),
        sort_index: "00005|000100|00000".to_string(),
    };
    let unmatched = vec![(0, &ann)];
    let paragraphs = vec![
        ("paragraph zero".to_string(), 0),
        ("paragraph one".to_string(), 5),
    ];
    let prompt = build_llm_placement_prompt(&unmatched, &paragraphs);
    assert!(prompt.is_some());
    let p = prompt.unwrap();
    assert!(p.contains("P0: paragraph zero"));
    assert!(p.contains("P1: paragraph one"));
    assert!(p.contains("ANN_0:"));
    assert!(p.contains("test text"));
}

#[test]
fn test_build_llm_placement_prompt_empty() {
    let paragraphs = vec![("text".to_string(), 0)];
    assert!(build_llm_placement_prompt(&[], &paragraphs).is_none());
}

#[test]
fn test_parse_llm_response_valid() {
    let paragraphs = vec![
        ("p0".to_string(), 10),
        ("p1".to_string(), 20),
        ("p2".to_string(), 30),
    ];
    let response = r#"{"ANN_0": 1, "ANN_1": 2}"#;
    let result = parse_llm_placement_response(response, &paragraphs);
    assert_eq!(result.get(&0), Some(&20));
    assert_eq!(result.get(&1), Some(&30));
}

#[test]
fn test_parse_llm_response_with_fences() {
    let paragraphs = vec![("p0".to_string(), 5)];
    let response = "```json\n{\"ANN_0\": 0}\n```";
    let result = parse_llm_placement_response(response, &paragraphs);
    assert_eq!(result.get(&0), Some(&5));
}

#[test]
fn test_parse_llm_response_negative_one() {
    let paragraphs = vec![("p0".to_string(), 5)];
    let response = r#"{"ANN_0": -1}"#;
    let result = parse_llm_placement_response(response, &paragraphs);
    assert!(result.is_empty());
}

#[test]
fn test_parse_llm_response_out_of_range() {
    let paragraphs = vec![("p0".to_string(), 5)];
    let response = r#"{"ANN_0": 99}"#;
    let result = parse_llm_placement_response(response, &paragraphs);
    assert!(result.is_empty());
}

#[test]
fn test_parse_llm_response_malformed() {
    let paragraphs = vec![("p0".to_string(), 5)];
    assert!(parse_llm_placement_response("not json", &paragraphs).is_empty());
}

#[test]
fn prompt_exact_text() {
    let ann = ZoteroAnnotation {
        item_id: 2,
        ann_type: 2,
        text: None,
        comment: Some("a comment".to_string()),
        color: None,
        page_label: None,
        sort_index: "0".to_string(),
    };
    let unmatched = vec![(7, &ann)];
    let paragraphs = vec![("first".to_string(), 0)];
    assert_eq!(
        build_llm_placement_prompt(&unmatched, &paragraphs).unwrap(),
        "## Document Paragraphs\n\nP0: first\n\n## Unmatched Annotations\n\nANN_0: [note, ] \"a comment\"\n"
    );
}

#[test]
fn prompt_truncates_to_200_characters() {
    let ann = ZoteroAnnotation {
        item_id: 1,
        ann_type: 1,
        text: Some("é".repeat(250)),
        comment: None,
        color: None,
        page_label: Some("3".to_string()),
        sort_index: "0".to_string(),
    };
    let long = "x".repeat(300);
    let p = build_llm_placement_prompt(&[(0, &ann)], &[(long, 1)]).unwrap();
    assert!(p.contains(&format!("P0: {}\n", "x".repeat(200))));
    assert!(p.contains(&format!("ANN_0: [highlight, p.3] \"{}\"\n", "é".repeat(200))));
}

#[test]
fn prompt_none_without_paragraphs() {
    let ann = ZoteroAnnotation {
        item_id: 1,
        ann_type: 1,
        text: None,
        comment: None,
        color: None,
        page_label: None,
        sort_index: "0".to_string(),
    };
    assert!(build_llm_placement_prompt(&[(0, &ann)], &[]).is_none());
}

#[test]
fn parse_reply_later_entries_and_bad_keys() {
    let paragraphs = vec![("p0".to_string(), 10), ("p1".to_string(), 20)];
    let result = parse_llm_placement_response(r#"{"ANN_x": 1, "OTHER": 0, "ANN_3": 1.5, "ANN_2": 0}"#, &paragraphs);
    assert_eq!(result.len(), 1);
    assert_eq!(result.get(&2), Some(&10));
    assert!(parse_llm_placement_response("[1, 2]", &paragraphs).is_empty());
    let fenced = parse_llm_placement_response("```{\"ANN_1\": 1}```", &paragraphs);
    assert_eq!(fenced.get(&1), Some(&20));
}

#[test]
fn batches_of_requests() {
    assert_eq!(llm_batches(0), vec![]);
    assert_eq!(llm_batches(20), vec![(0, 20)]);
    assert_eq!(llm_batches(25), vec![(0, 10), (10, 20), (20, 25)]);
}

#[test]
fn request_body_is_the_serialized_object() {
    let mut system = serde_json::Map::new();
    system.insert("role".to_string(), serde_json::Value::from("system"));
    system.insert("content".to_string(), serde_json::Value::from(LLM_PLACEMENT_SYSTEM_PROMPT));
    let mut user = serde_json::Map::new();
    user.insert("role".to_string(), serde_json::Value::from("user"));
    user.insert("content".to_string(), serde_json::Value::from("say \"hi\"\n"));
    let mut body = serde_json::Map::new();
    body.insert("model".to_string(), serde_json::Value::from("gpt-4o-mini"));
    body.insert(
        "messages".to_string(),
        serde_json::Value::Array(vec![serde_json::Value::Object(system), serde_json::Value::Object(user)]),
    );
    body.insert("max_tokens".to_string(), serde_json::Value::from(500));
    body.insert("temperature".to_string(), serde_json::Value::from(0));
    let expected = serde_json::to_string(&serde_json::Value::Object(body)).unwrap();
    let written = llm_request_body("gpt-4o-mini", "say \"hi\"\n");
    assert_eq!(written, expected);
    let parsed: serde_json::Value = serde_json::from_str(&written).unwrap();
    assert_eq!(parsed["temperature"].as_f64(), Some(0.0));
    assert_eq!(parsed["max_tokens"].as_u64(), Some(500));
    assert_eq!(parsed["messages"][1]["content"].as_str(), Some("say \"hi\"\n"));
}

#[test]
fn reply_body_content_and_errors() {
    let paragraphs = vec![("p0".to_string(), 10), ("p1".to_string(), 20)];
    let url = "https://api.example.com/v1/chat/completions";
    let ok = llm_reply_placements(
        r#"{"choices":[{"message":{"content":"{\"ANN_0\": 1}"}}]}"#,
        url,
        &paragraphs,
    )
    .unwrap();
    assert_eq!(ok.get(&0), Some(&20));
    assert_eq!(
        llm_reply_placements(r#"{"choices":[]}"#, url, &paragraphs).unwrap_err(),
        "No content in LLM response"
    );
    assert_eq!(
        llm_reply_placements("not json", url, &paragraphs).unwrap_err(),
        "Failed to parse LLM response: error decoding response body for url \
         (https://api.example.com/v1/chat/completions)"
    );
}

#[test]
fn placements_from_given_entries() {
    let paragraphs = vec![("p0".to_string(), 10), ("p1".to_string(), 20)];
    let entries = vec![
        ("ANN_0".to_string(), Some(1)),
        ("ANN_0".to_string(), Some(0)),
        ("ANN_1".to_string(), Some(-1)),
        ("ANN_2".to_string(), None),
    ];
    let r = placements_from_entries(&entries, &paragraphs);
    assert_eq!(r.len(), 1);
    assert_eq!(r.get(&0), Some(&10));
}

#[test]
fn reply_placements_of_given_content() {
    let paragraphs = vec![("p0".to_string(), 10), ("p1".to_string(), 20)];
    let url = "http://localhost/chat/completions";
    let ok = reply_placements(Some(Some("{\"ANN_3\": 0}".to_string())), url, &paragraphs).unwrap();
    assert_eq!(ok.len(), 1);
    assert_eq!(ok.get(&3), Some(&10));
    assert_eq!(reply_placements(Some(None), url, &paragraphs).unwrap_err(), "No content in LLM response");
    assert_eq!(reply_placements(None, url, &paragraphs).unwrap_err(), decode_error_message(url));
    assert_eq!(
        decode_error_message(url),
        "Failed to parse LLM response: error decoding response body for url (http://localhost/chat/completions)"
    );
}

#[test]
fn merge_batch_shifts_labels_and_skips_failures() {
    let mut acc = std::collections::HashMap::new();
    acc.insert(5usize, 1usize);
    acc.insert(1usize, 4usize);
    let mut batch = std::collections::HashMap::new();
    batch.insert(0usize, 9usize);
    batch.insert(2usize, 3usize);
    merge_batch(&mut acc, 5, Ok(batch));
    assert_eq!(acc.len(), 3);
    assert_eq!(acc.get(&1), Some(&4));
    assert_eq!(acc.get(&5), Some(&9));
    assert_eq!(acc.get(&7), Some(&3));
    merge_batch(&mut acc, 10, Err("LLM request failed".to_string()));
    assert_eq!(acc.len(), 3);
}
