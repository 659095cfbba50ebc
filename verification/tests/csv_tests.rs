use monthly_file_diff::FileInfo;

#[test]
fn test_csv_special_characters() {
    // Test CSV output with special characters that might need escaping
    let file_info = FileInfo {
        actual_name: "file,with,commas.txt".to_string(),
        size: 1024,
        created: "2024/08/15 10:30".to_string(),
        modified: "2024/08/15 10:45".to_string(),
        date_str: "2024-08".to_string(),
        rel_path: "sub/file,with,commas.txt".to_string(),
        normalized_rel_path: "sub/file,with,commas.txt".to_string(),
    };

    let csv_string = format!(
        "{},{},{},{},{},{},{}\n",
        file_info.normalized_rel_path,
        file_info.date_str,
        file_info.actual_name,
        file_info.size,
        file_info.created,
        file_info.modified,
        file_info.rel_path
    );

    // Note: This is a basic test - in production, commas in data should be properly escaped
    assert!(csv_string.contains("file,with,commas.txt"));
    assert!(csv_string.contains("2024-08"));
}

#[test]
fn test_multiple_files_csv_format() {
    let files = vec![
        FileInfo {
            actual_name: "file1.txt".to_string(),
            size: 100,
            created: "2024/08/01 09:00".to_string(),
            modified: "2024/08/01 09:15".to_string(),
            date_str: "2024-08".to_string(),
            rel_path: "file1.txt".to_string(),
            normalized_rel_path: "file{mm}.txt".to_string(),
        },
        FileInfo {
            actual_name: "file2.txt".to_string(),
            size: 200,
            created: "2024/12/01 10:00".to_string(),
            modified: "2024/12/01 10:30".to_string(),
            date_str: "2024-12".to_string(),
            rel_path: "file2.txt".to_string(),
            normalized_rel_path: "file{mm}.txt".to_string(),
        },
    ];

    let mut csv_string = String::new();
    csv_string.push_str("normalized_rel_path,date,actual_name,size,created,modified,rel_path\n");

    for file in &files {
        csv_string.push_str(&format!(
            "{},{},{},{},{},{},{}\n",
            file.normalized_rel_path,
            file.date_str,
            file.actual_name,
            file.size,
            file.created,
            file.modified,
            file.rel_path
        ));
    }

    let lines: Vec<&str> = csv_string.lines().collect();

    // Should have header + 2 data lines
    assert_eq!(lines.len(), 3);

    // Check header
    assert_eq!(
        lines[0],
        "normalized_rel_path,date,actual_name,size,created,modified,rel_path"
    );

    // Check data rows
    assert!(lines[1].contains("file{mm}.txt,2024-08,file1.txt,100"));
    assert!(lines[2].contains("file{mm}.txt,2024-12,file2.txt,200"));
}

#[test]
fn test_empty_file_list_csv() {
    let files: Vec<FileInfo> = vec![];

    let mut csv_string = String::new();
    csv_string.push_str("normalized_rel_path,date,actual_name,size,created,modified,rel_path\n");

    for file in &files {
        csv_string.push_str(&format!(
            "{},{},{},{},{},{},{}\n",
            file.normalized_rel_path,
            file.date_str,
            file.actual_name,
            file.size,
            file.created,
            file.modified,
            file.rel_path
        ));
    }

    let lines: Vec<&str> = csv_string.lines().collect();

    // Should only have header
    assert_eq!(lines.len(), 1);
    assert_eq!(
        lines[0],
        "normalized_rel_path,date,actual_name,size,created,modified,rel_path"
    );
}
