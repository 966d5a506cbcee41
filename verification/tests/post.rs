use playground::post::Post;

#[test]
fn post_workflow() {
    let mut post = Post::new();

    post.append_content("test".to_string());
    assert_eq!(post.content(), "");

    post.request_review();
    assert_eq!(post.content(), "");

    post.append_content("cccc".to_string());
    assert_eq!(post.content(), "");

    post.approve();
    assert_eq!(post.content(), "");

    post.approve();
    assert_eq!(post.content(), "test");
}

#[test]
fn post_draft_is_not_approved() {
    let mut post = Post::new();
    post.append_content("a".to_string());
    post.approve();
    post.approve();
    assert_eq!(post.content(), "");
    post.append_content("b".to_string());
    post.request_review();
    post.request_review();
    post.approve();
    post.approve();
    assert_eq!(post.content(), "ab");
}

#[test]
fn post_published_is_final() {
    let mut post = Post::new();
    post.append_content("x".to_string());
    post.request_review();
    post.approve();
    post.approve();
    post.request_review();
    post.approve();
    post.append_content("y".to_string());
    assert_eq!(post.content(), "x");
}
