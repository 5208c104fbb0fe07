use aliu::{r, AllocExt, AllocStat, BucketList, Pod};

#[test]
fn test_with_bucket_list() {
    let capacity = 128;
    let iterations = 4;
    let data = [12u64, 12, 31, 4123];

    let mut bucket_list = BucketList::with_capacity(capacity);

    for _ in 0..iterations {
        let mut pod = Pod::<u64, _>::with_allocator(bucket_list);
        pod.reserve(data.len()).unwrap();

        for i in data {
            pod.push(i).unwrap();
        }

        println!("len={}, capa={}: {:?}", pod.len(), pod.capacity(), pod.as_slice());
        bucket_list = pod.into_allocator();
    }

    let used = data.len() * 8 * iterations;
    assert_eq!(bucket_list.total_used(), used);
    assert_eq!(bucket_list.total_capacity(), 128);

    bucket_list.new(1u64).unwrap();

    assert_eq!(bucket_list.total_used(), used + 8);
    assert_eq!(
        bucket_list.total_capacity(),
        128 + BucketList::DEFAULT_BUCKET_SIZE
    );
}

#[test]
fn test_basics() {
    let a = r(0usize, 5);
    let b = r(0u32, 5u32);
    let c = 0usize;
    let d = 0u32;

    let mut data = Pod::with_capacity(7);
    for value in [1, 2, 3, 4, 5, 6, 7] {
        data.push(value).unwrap();
    }

    assert_eq!(&[1, 2, 3, 4, 5], data.index(a));
    assert_eq!(&[1, 2, 3, 4, 5], data.index(b));
    assert_eq!(&1, data.index(c));
    assert_eq!(&1, data.index(d));
}
