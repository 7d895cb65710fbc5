# obsidian_todo

Structured todo notes in an Obsidian vault. Tasks and projects are Markdown records with YAML front
matter; a store is a directory with a configuration, a schema, tasks, projects and attachments.

The library is verified with Verus: what each function returns, and when it fails, is stated in its
contract and proved. `app/` is the command line around it, which reads and writes files.

- `src/text.rs`, `src/order.rs`, `src/paths.rs`, `src/calendar.rs`: texts, sorting, paths, dates.
- `src/error.rs`: errors and issues.
- `src/config.rs`, `src/documents.rs`, `src/schema.rs`: the configuration and the schema.
- `src/scan.rs`, `src/yaml.rs`, `src/frontmatter.rs`, `src/model.rs`: records.
- `src/recurrence.rs`: rules for tasks that repeat.
- `src/parents.rs`: how tasks relate.
- `src/markdown.rs`, `src/attachments.rs`, `src/link_laws.rs`, `src/url.rs`: links and attachments.
- `src/input.rs`, `src/patterns.rs`: a task in one line of text.
- `src/store.rs`, `src/discovery.rs`, `src/validate.rs`, `src/upgrade.rs`: the store.
- `src/commands/`: what can be done with a store.
- `src/record_laws.rs`: what is written into a record is read back from it.
- `src/output.rs`, `src/replies.rs`: what is shown, and what commands answer.
