use webpub::server::http::{find_node, serve_request, HttpReply};
use webpub::server::storage::Storage;
use webpub::Node;

#[test]
fn test_find_node_in_tree() {
    let tree = Node::Directory {
        name: "".to_string(),
        permissions: 0o755,
        children: vec![
            Node::File {
                name: "index.html".to_string(),
                permissions: 0o644,
                size: 100,
                chunks: vec![[1u8; 32]],
                hash: [2u8; 32],
            },
            Node::Directory {
                name: "css".to_string(),
                permissions: 0o755,
                children: vec![
                    Node::File {
                        name: "style.css".to_string(),
                        permissions: 0o644,
                        size: 50,
                        chunks: vec![[3u8; 32]],
                        hash: [4u8; 32],
                    },
                ],
                hash: [5u8; 32],
            },
        ],
        hash: [6u8; 32],
    };

    // Find root index.html
    let node = find_node(&tree, "/index.html");
    assert!(node.is_some());
    assert_eq!(node.unwrap().name(), "index.html");

    // Find nested file
    let node = find_node(&tree, "/css/style.css");
    assert!(node.is_some());
    assert_eq!(node.unwrap().name(), "style.css");

    // Directory with trailing slash -> look for index.html
    let node = find_node(&tree, "/");
    assert!(node.is_some());

    // Not found
    let node = find_node(&tree, "/missing.txt");
    assert!(node.is_none());
}

#[test]
fn test_serve_request_reassembles_body() {
    let mut storage = Storage::new();
    let body = b"<h1>Hello</h1>".to_vec();
    let digest = *blake3::hash(&body).as_bytes();
    storage.store_chunk(&digest, &body);

    let tree = Node::Directory {
        name: "".to_string(),
        permissions: 0o755,
        children: vec![Node::File {
            name: "index.html".to_string(),
            permissions: 0o644,
            size: body.len() as u64,
            chunks: vec![digest],
            hash: [1u8; 32],
        }],
        hash: [2u8; 32],
    };
    storage.create_snapshot("test.local", &tree, "");

    // A file path serves the file's bytes; the port is stripped from Host.
    match serve_request(&storage, "test.local:8080", "/index.html") {
        HttpReply::Served { body: served, name } => {
            assert_eq!(served, body);
            assert_eq!(name, "index.html");
        }
        other => panic!("expected a served body, got {:?}", other),
    }

    // The root path falls back to index.html.
    match serve_request(&storage, "test.local", "/") {
        HttpReply::Served { body: served, .. } => assert_eq!(served, body),
        other => panic!("expected a served body, got {:?}", other),
    }

    // An unknown site answers with site-not-found.
    assert!(matches!(
        serve_request(&storage, "other.org", "/index.html"),
        HttpReply::SiteNotFound
    ));

    // An unknown path answers with not-found.
    assert!(matches!(
        serve_request(&storage, "test.local", "/missing.txt"),
        HttpReply::NotFound
    ));
}

#[test]
fn test_serve_request_directory_falls_back_to_index() {
    let mut storage = Storage::new();
    let body = b"<p>docs</p>".to_vec();
    let digest = *blake3::hash(&body).as_bytes();
    storage.store_chunk(&digest, &body);

    let tree = Node::Directory {
        name: "".to_string(),
        permissions: 0o755,
        children: vec![Node::Directory {
            name: "docs".to_string(),
            permissions: 0o755,
            children: vec![Node::File {
                name: "index.html".to_string(),
                permissions: 0o644,
                size: body.len() as u64,
                chunks: vec![digest],
                hash: [1u8; 32],
            }],
            hash: [2u8; 32],
        }],
        hash: [3u8; 32],
    };
    storage.create_snapshot("test.local", &tree, "");

    // A directory path answers with its index.html, with or without the
    // trailing slash.
    match serve_request(&storage, "test.local", "/docs") {
        HttpReply::Served { body: served, .. } => assert_eq!(served, body),
        other => panic!("expected the index page, got {:?}", other),
    }
    match serve_request(&storage, "test.local", "/docs/") {
        HttpReply::Served { body: served, .. } => assert_eq!(served, body),
        other => panic!("expected the index page, got {:?}", other),
    }
}

#[test]
fn test_serve_request_missing_chunk() {
    let mut storage = Storage::new();
    let tree = Node::Directory {
        name: "".to_string(),
        permissions: 0o755,
        children: vec![Node::File {
            name: "index.html".to_string(),
            permissions: 0o644,
            size: 5,
            chunks: vec![[7u8; 32]],
            hash: [1u8; 32],
        }],
        hash: [2u8; 32],
    };
    storage.create_snapshot("test.local", &tree, "");

    // The referenced chunk was never uploaded.
    assert!(matches!(
        serve_request(&storage, "test.local", "/index.html"),
        HttpReply::MissingChunk
    ));
}
