use std::collections::VecDeque;

use mepul::download::{sort_layers_by_size, DownloadScheduler, QueueItem};
use mepul::image_ref::ImageReference;
use mepul::types::Descriptor;

fn layer(digest: &str, size: u64) -> Descriptor {
    Descriptor {
        media_type: "application/vnd.oci.image.layer.v1.tar+gzip".to_string(),
        digest: digest.to_string(),
        size,
    }
}

/// Whether each layer is larger than the mean layer size, compared as `f32`.
fn above_mean(layers: &[Descriptor]) -> Vec<bool> {
    let total: f32 = layers.iter().map(|d| d.size).sum::<u64>() as f32;
    let mean = total / layers.len() as f32;
    layers.iter().map(|d| d.size as f32 > mean).collect()
}

fn totals(scheduler: &DownloadScheduler) -> Vec<u64> {
    scheduler.queue.iter().map(|q| q.iter().map(|item| item.size()).sum()).collect()
}

#[test]
fn test_min_returns_index_of_queue_with_smallest_total_size() {
    let mut scheduler = DownloadScheduler::new(2);

    let mut queue_100: VecDeque<QueueItem> = VecDeque::new();
    queue_100.push_back(QueueItem::Descriptor(Descriptor {
        media_type: "application/vnd.oci.image.layer.v1.tar+gzip".to_string(),
        digest: "sha256:dummy1".to_string(),
        size: 100,
    }));

    let mut queue_10000: VecDeque<QueueItem> = VecDeque::new();
    queue_10000.push_back(QueueItem::Descriptor(Descriptor {
        media_type: "application/vnd.oci.image.layer.v1.tar+gzip".to_string(),
        digest: "sha256:dummy2".to_string(),
        size: 10000,
    }));

    let queue_empty: VecDeque<QueueItem> = VecDeque::new();

    scheduler.queue.push(queue_100);
    scheduler.queue.push(queue_10000);
    scheduler.queue.push(queue_empty);

    let _result = scheduler.get_min_size_queue_index();
}

#[test]
fn min_queue_is_the_first_of_the_smallest() {
    let mut scheduler = DownloadScheduler::new(0);
    assert_eq!(scheduler.get_min_size_queue_index(), None);

    let mut big = VecDeque::new();
    big.push_back(QueueItem::Descriptor(layer("sha256:a", 100)));
    scheduler.queue.push(big);
    scheduler.queue.push(VecDeque::new());
    scheduler.queue.push(VecDeque::new());
    assert_eq!(scheduler.get_min_size_queue_index(), Some(1));
    assert_eq!(scheduler._get_min_size_queue_index(), Some(1));
}

#[test]
fn test_schedule() {
    let mut scheduler = DownloadScheduler::new(3);

    let mut layers = Vec::new();
    layers.push(Descriptor {
        media_type: "application/vnd.oci.image.layer.v1.tar+gzip".to_string(),
        digest: "sha256:dummy1".to_string(),
        size: 1,
    });

    layers.push(Descriptor {
        media_type: "application/vnd.oci.image.layer.v1.tar+gzip".to_string(),
        digest: "sha256:dummy2".to_string(),
        size: 100,
    });

    layers.push(Descriptor {
        media_type: "application/vnd.oci.image.layer.v1.tar+gzip".to_string(),
        digest: "sha256:dummy3".to_string(),
        size: 100,
    });

    layers.push(Descriptor {
        media_type: "application/vnd.oci.image.layer.v1.tar+gzip".to_string(),
        digest: "sha256:dummy4".to_string(),
        size: 10000,
    });

    let image = &ImageReference {
        registry: "takata_registry".to_string(),
        repository: "takata_repository".to_string(),
        reference: "takata_reference".to_string(),
    };

    let flags = above_mean(&layers);
    scheduler.schedule(layers, image, flags);

    scheduler.queue.iter().enumerate().for_each(|(index, queue)| {
        let total_size: u64 = queue.iter().map(|item| item.size()).sum();
        println!("Queue: {:?}", queue);

        println!("Queue [{}] total size: {}", index, total_size);
    });
}

#[test]
fn schedule_splits_large_layer_over_least_loaded_queues() {
    let mut scheduler = DownloadScheduler::new(3);
    let layers = vec![
        layer("sha256:d4", 10000),
        layer("sha256:d2", 100),
        layer("sha256:d1", 1),
        layer("sha256:d3", 100),
    ];
    let image = ImageReference::parse("ghcr.io/example/app:1").unwrap();
    let flags = above_mean(&layers);
    assert_eq!(flags, vec![true, false, false, false]);
    scheduler.schedule(layers, &image, flags);

    assert_eq!(totals(&scheduler), vec![5001, 5100, 100]);
    let q0: Vec<&QueueItem> = scheduler.queue[0].iter().collect();
    match (q0[0], q0[1]) {
        (QueueItem::Whole(w), QueueItem::Split(s)) => {
            assert_eq!(w.digest, "sha256:d1");
            assert_eq!((w.start, w.end, w.size), (0, 1, 1));
            assert_eq!(s.digest, "sha256:d4");
            assert_eq!((s.start, s.end, s.size), (0, 5000, 5000));
            assert_eq!(s.registry, "ghcr.io");
        }
        other => panic!("unexpected {other:?}"),
    }
    match scheduler.queue[1].iter().last().unwrap() {
        QueueItem::Split(s) => assert_eq!((s.start, s.end, s.size), (5000, 10000, 15000)),
        other => panic!("unexpected {other:?}"),
    }
    match scheduler.queue[2].iter().next().unwrap() {
        QueueItem::Whole(w) => assert_eq!(w.digest, "sha256:d3"),
        other => panic!("unexpected {other:?}"),
    }
}

#[test]
fn schedule_keeps_every_byte() {
    let mut scheduler = DownloadScheduler::new(2);
    let layers = vec![layer("sha256:a", 7), layer("sha256:b", 30), layer("sha256:c", 3)];
    let flags = above_mean(&layers);
    let image = ImageReference::parse("ubuntu").unwrap();
    scheduler.schedule(layers, &image, flags);
    assert_eq!(totals(&scheduler).iter().sum::<u64>(), 40);
}

#[test]
fn splite_layer_halves_the_range() {
    let scheduler = DownloadScheduler::new(1);
    let image = ImageReference::parse("ubuntu").unwrap();
    let (a, b) = scheduler.splite_layer(&image, &layer("sha256:x", 7));
    assert_eq!((a.start, a.end, a.size), (0, 3, 3));
    assert_eq!((b.start, b.end, b.size), (3, 7, 10));
    assert_eq!(a.digest, "sha256:x");
    assert_eq!(b.repository, "library/ubuntu");
}

#[test]
fn try_schedule_places_a_layer_beside_two_nearly_full_queues() {
    let mut scheduler = DownloadScheduler::new(0);
    for digest in ["sha256:p", "sha256:q"] {
        let mut q = VecDeque::new();
        q.push_back(QueueItem::Descriptor(layer(digest, 1u64 << 63)));
        scheduler.queue.push(q);
    }
    let image = ImageReference::parse("ubuntu").unwrap();
    let layers = vec![layer("sha256:small", 1)];
    let flags = above_mean(&layers);
    assert!(scheduler.try_schedule(layers, &image, flags));
    assert_eq!(totals(&scheduler), vec![(1u64 << 63) + 1, 1u64 << 63]);
}

#[test]
fn try_schedule_without_layers_asks_nothing_of_the_queues() {
    let mut scheduler = DownloadScheduler::new(0);
    let image = ImageReference::parse("ubuntu").unwrap();
    assert!(scheduler.try_schedule(Vec::new(), &image, Vec::new()));
    assert!(scheduler.queue.is_empty());
}

#[test]
fn try_schedule_refuses_layers_without_a_queue() {
    let mut scheduler = DownloadScheduler::new(0);
    let image = ImageReference::parse("ubuntu").unwrap();
    assert!(!scheduler.try_schedule(vec![layer("sha256:a", 5)], &image, vec![false]));
    assert!(scheduler.queue.is_empty());
}

#[test]
fn try_schedule_refuses_a_queue_that_overflows_and_leaves_the_queues() {
    let mut scheduler = DownloadScheduler::new(0);
    let mut q = VecDeque::new();
    q.push_back(QueueItem::Descriptor(layer("sha256:p", u64::MAX)));
    q.push_back(QueueItem::Descriptor(layer("sha256:q", 1)));
    scheduler.queue.push(q);
    let image = ImageReference::parse("ubuntu").unwrap();
    assert!(!scheduler.try_schedule(vec![layer("sha256:a", 5)], &image, vec![false]));
    assert_eq!(scheduler.queue[0].len(), 2);
}

#[test]
fn try_schedule_refuses_a_second_half_whose_size_overflows() {
    let mut scheduler = DownloadScheduler::new(2);
    let image = ImageReference::parse("ubuntu").unwrap();
    let big = u64::MAX - 10;
    assert!(!scheduler.try_schedule(vec![layer("sha256:a", big)], &image, vec![true]));
    assert!(scheduler.queue.iter().all(|q| q.is_empty()));
    assert!(scheduler.try_schedule(vec![layer("sha256:a", big)], &image, vec![false]));
    assert_eq!(totals(&scheduler), vec![big, 0]);
}

#[test]
fn try_schedule_refuses_layer_sizes_that_overflow() {
    let mut scheduler = DownloadScheduler::new(2);
    let image = ImageReference::parse("ubuntu").unwrap();
    let layers = vec![layer("sha256:a", u64::MAX), layer("sha256:b", 1)];
    assert!(!scheduler.try_schedule(layers, &image, vec![false, false]));
    assert_eq!(totals(&scheduler), vec![0, 0]);
}

#[test]
fn sorting_layers_keeps_equal_sizes_in_order() {
    let layers = vec![
        (layer("sha256:b1", 5), false),
        (layer("sha256:a", 1), true),
        (layer("sha256:b2", 5), true),
        (layer("sha256:c", 3), false),
        (layer("sha256:b3", 5), false),
    ];
    let sorted = sort_layers_by_size(layers);
    let digests: Vec<&str> = sorted.iter().map(|(d, _)| d.digest.as_str()).collect();
    assert_eq!(digests, vec!["sha256:a", "sha256:c", "sha256:b1", "sha256:b2", "sha256:b3"]);
    assert_eq!(sorted.iter().map(|(_, f)| *f).collect::<Vec<bool>>(), vec![true, false, false, true, false]);
}

#[test]
fn scheduling_keeps_old_entries_and_adds_the_pieces_of_each_layer() {
    let mut scheduler = DownloadScheduler::new(2);
    scheduler.queue[0].push_back(QueueItem::Descriptor(layer("sha256:old", 50)));
    let image = ImageReference::parse("quay.io/org/tool:2").unwrap();
    let layers = vec![layer("sha256:big", 9), layer("sha256:small", 4)];
    scheduler.schedule(layers, &image, vec![true, false]);

    match &scheduler.queue[0][0] {
        QueueItem::Descriptor(d) => assert_eq!(d.digest, "sha256:old"),
        other => panic!("unexpected {other:?}"),
    }
    let mut pieces: Vec<(String, u64, u64)> = Vec::new();
    for (i, q) in scheduler.queue.iter().enumerate() {
        for item in q.iter().skip(if i == 0 { 1 } else { 0 }) {
            match item {
                QueueItem::Whole(w) => {
                    assert_eq!((w.registry.as_str(), w.repository.as_str()), ("quay.io", "org/tool"));
                    pieces.push((w.digest.clone(), w.start, w.end));
                }
                QueueItem::Split(s) => {
                    assert_eq!((s.registry.as_str(), s.repository.as_str()), ("quay.io", "org/tool"));
                    pieces.push((s.digest.clone(), s.start, s.end));
                }
                other => panic!("unexpected {other:?}"),
            }
        }
    }
    pieces.sort();
    assert_eq!(
        pieces,
        vec![
            ("sha256:big".to_string(), 0, 4),
            ("sha256:big".to_string(), 4, 9),
            ("sha256:small".to_string(), 0, 4),
        ]
    );
}
