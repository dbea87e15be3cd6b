use mem_etcd::keyspace::Bound;
use mem_etcd::store::Store;

#[test]
fn test_prefix_split() {
    assert_eq!(
        Store::prefix_split(&b"abc".to_vec()),
        (b"".as_slice(), b"abc".as_slice())
    );
    assert_eq!(
        Store::prefix_split(&b"abc/".to_vec()),
        (b"".as_slice(), b"abc/".as_slice())
    );
    assert_eq!(
        Store::prefix_split(&b"a/b".to_vec()),
        (b"".as_slice(), b"a/b".as_slice())
    );
    assert_eq!(
        Store::prefix_split(&b"/a/b".to_vec()),
        (b"".as_slice(), b"/a/b".as_slice())
    );
    assert_eq!(
        Store::prefix_split(&b"a/b/c".to_vec()),
        (b"".as_slice(), b"a/b/c".as_slice())
    );
    assert_eq!(
        Store::prefix_split(&b"/a/b/c".to_vec()),
        (b"".as_slice(), b"/a/b/c".as_slice())
    );
    assert_eq!(
        Store::prefix_split(&b"/registry/serviceaccounts/".to_vec()),
        (b"/registry/serviceaccounts/".as_slice(), b"".as_slice())
    );
    assert_eq!(
        Store::prefix_split(&b"/registry/pods/kube-system/foo".to_vec()),
        (b"/registry/pods/".as_slice(), b"kube-system/foo".as_slice())
    );
    assert_eq!(
        Store::prefix_split(&b"/registry/roles/foo".to_vec()),
        (b"/registry/roles/".as_slice(), b"foo".as_slice())
    );
    assert_eq!(
        Store::prefix_split(&b"/registry/apigroup-example.com/my-resources/foo".to_vec()),
        (
            b"/registry/apigroup-example.com/my-resources/".as_slice(),
            b"foo".as_slice()
        )
    );
    assert_eq!(
        Store::prefix_split(
            &b"/registry/apigroup-example.com/my-resources/my-namespace/foo".to_vec()
        ),
        (
            b"/registry/apigroup-example.com/my-resources/".as_slice(),
            b"my-namespace/foo".as_slice()
        )
    );
}

#[test]
fn test_prefix_and_range_of_key() {
    let key = b"/registry/serviceaccounts/".to_vec();
    let end = b"/registry/serviceaccounts0".to_vec();
    let (prefix, range) = Store::prefix_and_range_of_key(&key, &end).unwrap();
    assert_eq!(prefix, b"/registry/serviceaccounts/".as_slice());
    assert_eq!(range, (Bound::Included(b"".to_vec()), Bound::Unbounded));

    let key = b"/registry/apiextensions.k8s.io/customresourcedefinitions/".to_vec();
    let end = b"/registry/apiextensions.k8s.io/customresourcedefinitions0".to_vec();
    let (prefix, range) = Store::prefix_and_range_of_key(&key, &end).unwrap();
    assert_eq!(prefix, b"/registry/apiextensions.k8s.io/customresourcedefinitions/".as_slice());
    assert_eq!(range, (Bound::Included(b"".to_vec()), Bound::Unbounded));

    let key = b"/bootstrap".to_vec();
    let end = b"/bootstraq".to_vec();
    let (prefix, range) = Store::prefix_and_range_of_key(&key, &end).unwrap();
    assert_eq!(prefix, b"".as_slice());
    assert_eq!(range, (Bound::Included(b"/bootstrap".to_vec()), Bound::Excluded(b"/bootstraq".to_vec())));
}
