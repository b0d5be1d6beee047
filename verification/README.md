# notion-fs

A read-only FUSE file system that presents the tickets of Notion databases as Markdown files:

```
/<project>/.refresh
/<project>/<assignee>/<status>/<ticket-id>.md
```

Reading a `.refresh` file fetches its project anew. Reading a ticket's file fetches the ticket's
description the first time, keeps it, and saves it to the disk cache.

The library in `src/` holds the logic and is verified with Verus: reading tickets from API replies,
slugs, the tree of tickets, the disk cache, inodes, listings, and the answer to each request of the
kernel. It does no input or output; where a request needs the API, the library hands out a step and
takes the outcome back. The program in `app/` parses the command line and the configuration, talks
to the Notion API, reads and writes the cache files, and mounts the file system.

```
NOTION_TOKEN=... notion-fs <MOUNTPOINT> [--config <PATH>] [--cache-dir <DIR>]
```

| module | content |
|---|---|
| `config` | the configuration and where it is looked for |
| `json`, `notion`, `client` | API documents, tickets and their rendering, paged requests |
| `slug`, `text`, `path`, `inode` | names, texts, paths and inode numbers |
| `dict`, `sums`, `tree` | the tree of tickets and its counts |
| `lookup`, `listing` | what stands at a path, what a directory lists |
| `cache` | loading, refreshing and saving |
| `fs` | the file system |
