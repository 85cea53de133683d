use crate::error::CacheError;
use crate::item::{dec_items, decode_items, enc_items, encode_items, views_of_items, CacheItem};
use crate::logseq::{
    item_to_page, item_view_of_page, page_to_item, pages_of_items, pages_to_items, views_of_pages,
    LogseqPage,
};
use crate::scores::{
    compact_content, load_scores_from, opt_str_view, spec_compact, spec_load_scores,
    views_of_scores, ItemScore,
};
use vstd::prelude::*;

verus! {

/// The snapshot file of the core item cache: where it lives, and how its
/// content is written and read. The file system calls stay with the caller;
/// the cache turns snapshots into file content and back, exactly.
pub struct FileCache {
    pub file_name: String,
}

impl FileCache {
    pub fn new(file_name: &str) -> (r: FileCache)
        ensures
            r.file_name@ == file_name@,
    {
        FileCache { file_name: file_name.to_owned() }
    }

    /// The full content that replaces the snapshot file: every item, whole.
    pub fn render(&self, items: &Vec<CacheItem>) -> (r: String)
        ensures
            r@ == enc_items(views_of_items(items@)),
    {
        encode_items(items)
    }

    /// The snapshot read back from the file's content. An unreadable file is
    /// an `IoError`; content that is not one whole well-formed snapshot is a
    /// `SerializationError`, never a partial or empty result.
    pub fn parse(&self, content: Result<String, CacheError>) -> (r: Result<
        Vec<CacheItem>,
        CacheError,
    >)
        ensures
            match r {
                Result::Ok(items) => content is Ok && dec_items(content.unwrap()@)
                    == Option::Some(views_of_items(items@)),
                Result::Err(e) => match content {
                    Result::Ok(c) => dec_items(c@) is None && e == CacheError::SerializationError,
                    Result::Err(io) => e == io,
                },
            },
    {
        match content {
            Result::Ok(c) => decode_items(c.as_str()),
            Result::Err(e) => Err(e),
        }
    }
}

/// The note pages' snapshot file: pages are stored as core items, uuid as the
/// identity.
pub struct FilePageCache {
    pub file_name: String,
}

impl FilePageCache {
    pub fn new(file_name: &str) -> (r: FilePageCache)
        ensures
            r.file_name@ == file_name@,
    {
        FilePageCache { file_name: file_name.to_owned() }
    }

    /// The full content that replaces the page snapshot file; the caller
    /// writes it, creating the parent directory first.
    pub fn update_cache(&self, pages: Vec<LogseqPage>) -> (r: String)
        ensures
            r@ == enc_items(crate::logseq::items_of_pages(views_of_pages(pages@))),
    {
        let items = pages_to_items(pages);
        encode_items(&items)
    }

    /// The pages read back from the snapshot file's content: exactly the
    /// pages whose items the content encodes, or the error.
    pub fn load_cache(&self, content: Result<String, CacheError>) -> (r: Result<
        Vec<LogseqPage>,
        CacheError,
    >)
        ensures
            match r {
                Result::Ok(pages) => content is Ok && dec_items(content.unwrap()@)
                    == Option::Some(crate::logseq::items_of_pages(views_of_pages(pages@))),
                Result::Err(e) => match content {
                    Result::Ok(c) => dec_items(c@) is None && e == CacheError::SerializationError,
                    Result::Err(io) => e == io,
                },
            },
    {
        match content {
            Result::Ok(c) => match decode_items(c.as_str()) {
                Result::Ok(items) => {
                    let ghost item_views = views_of_items(items@);
                    let mut rest = items;
                    let mut pages: Vec<LogseqPage> = Vec::new();
                    proof {
                        assert(crate::logseq::items_of_pages(views_of_pages(pages@))
                            =~~= item_views.take(0));
                    }
                    while rest.len() > 0
                        invariant
                            rest@.len() <= item_views.len(),
                            views_of_items(rest@) == item_views.skip(
                                item_views.len() - rest@.len(),
                            ),
                            crate::logseq::items_of_pages(views_of_pages(pages@))
                                == item_views.take(item_views.len() - rest@.len()),
                        decreases rest@.len(),
                    {
                        let ghost k = item_views.len() - rest@.len();
                        let ghost before = views_of_items(rest@);
                        let ghost old_out = crate::logseq::items_of_pages(views_of_pages(pages@));
                        let it = rest.remove(0);
                        proof {
                            assert(it@ == before[0]);
                            assert(before[0] == item_views[k as int]);
                            assert(views_of_items(rest@) =~~= before.skip(1));
                            assert(before.skip(1) =~= item_views.skip(k + 1));
                        }
                        let ghost itv = it@;
                        pages.push(item_to_page(it));
                        proof {
                            assert(crate::logseq::items_of_pages(views_of_pages(pages@))
                                =~~= old_out.push(itv));
                            assert(crate::logseq::items_of_pages(views_of_pages(pages@))
                                =~~= item_views.take(k + 1));
                        }
                    }
                    proof {
                        assert(item_views.take(item_views.len() as int) =~= item_views);
                    }
                    Ok(pages)
                },
                Result::Err(e) => Err(e),
            },
            Result::Err(e) => Err(e),
        }
    }
}

/// The bookmark items' snapshot file. The bookmark snapshot is kept in the
/// remote source's own record shape; the caller moves its content to and from
/// disk.
pub struct FileItemCache {
    pub file_name: String,
}

impl FileItemCache {
    pub fn new(file_name: &str) -> (r: FileItemCache)
        ensures
            r.file_name@ == file_name@,
    {
        FileItemCache { file_name: file_name.to_owned() }
    }

    /// The full content that replaces the bookmark snapshot file: every
    /// record, whole, in order; the caller writes it.
    pub fn update_cache(&self, items: &Vec<crate::raindrop::Item>) -> (r: String)
        ensures
            r@ == crate::raindrop_snapshot::enc_rd_items(crate::raindrop::views_of_raindrop(
                items@,
            )),
    {
        crate::raindrop_snapshot::encode_raindrop_items(items)
    }

    /// The bookmark records read back from the snapshot file's content:
    /// exactly the records the content encodes, or the error.
    pub fn load_cache(&self, content: Result<String, CacheError>) -> (r: Result<
        Vec<crate::raindrop::Item>,
        CacheError,
    >)
        ensures
            match r {
                Result::Ok(items) => content is Ok && crate::raindrop_snapshot::dec_rd_items(
                    content.unwrap()@,
                ) == Option::Some(crate::raindrop::views_of_raindrop(items@)),
                Result::Err(e) => match content {
                    Result::Ok(c) => crate::raindrop_snapshot::dec_rd_items(c@) is None && e
                        == CacheError::SerializationError,
                    Result::Err(io) => e == io,
                },
            },
    {
        match content {
            Result::Ok(c) => crate::raindrop_snapshot::decode_raindrop_items(c.as_str()),
            Result::Err(e) => Err(e),
        }
    }
}

/// The score snapshot file: holds the compacted usage records.
pub struct FileItemScoreCache {
    pub file_name: String,
}

impl FileItemScoreCache {
    pub fn new(file_name: &str) -> (r: FileItemScoreCache)
        ensures
            r.file_name@ == file_name@,
    {
        FileItemScoreCache { file_name: file_name.to_owned() }
    }

    /// One compaction over the two files' contents: `None` in means the file
    /// was not there, `None` out means nothing to write. After writing the
    /// result the caller deletes the access log, in that order, so a write
    /// failure can only over-count on the next run, never lose events.
    pub fn update_item_scores(&self, prev: Option<String>, log: Option<String>) -> (r: Option<
        String,
    >)
        ensures
            match r {
                Option::Some(out) => spec_compact(opt_str_view(prev), opt_str_view(log))
                    == Option::Some(out@),
                Option::None => spec_compact(opt_str_view(prev), opt_str_view(log)) is None,
            },
    {
        compact_content(prev, log)
    }

    /// The score records read for a query: sorted by last use, newest first;
    /// a missing or corrupt snapshot is an empty cold start, never an error.
    pub fn load_item_scores(&self, content: Option<String>) -> (r: Vec<ItemScore>)
        ensures
            views_of_scores(r@) == spec_load_scores(opt_str_view(content)),
    {
        load_scores_from(content)
    }
}

} // verus!
